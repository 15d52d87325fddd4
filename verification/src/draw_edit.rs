//! Editing the draw: the roles of judges on a panel, the links of the draw
//! editor, the canonical snapshot of a panel that guards against
//! concurrent edits, and the changes that moving a judge, a room or a team
//! makes to the draw.
use vstd::prelude::*;
use vstd::string::StrSliceExecFns;
use crate::text::{hex_text, u64_to_hex};
use crate::tournament::Tournament;
use crate::participants::{Judge, DebateJudge, TournamentParticipants};
use crate::draws::{Debate, DebateRepr, DebateTeam, Room, RoundDrawRepr};
use crate::seqs::{views, dedup, push_unique, lemma_dedup_props, distinct_views, contains_string, first_match, lemma_first_match_at};
use crate::draws::judge_has_id;
use crate::rounds::Round;

verus! {

/// Whether two texts are equal.
pub fn str_eq(a: &str, b: &str) -> (r: bool)
    ensures
        r == (a@ == b@),
{
    String::from_str(a) == String::from_str(b)
}

/// The role of a judge on a panel.
#[derive(PartialEq, Eq, Structural, Clone, Copy)]
pub enum Role {
    Trainee,
    Panelist,
    Chair,
}

/// The one-letter code a role is stored as.
pub open spec fn role_code(r: Role) -> Seq<char> {
    match r {
        Role::Trainee => "T"@,
        Role::Panelist => "P"@,
        Role::Chair => "C"@,
    }
}

/// The role a code stands for; the empty code stands for a panelist.
pub open spec fn role_of_code(s: Seq<char>) -> Option<Role> {
    if s.len() == 0 {
        Some(Role::Panelist)
    } else if s.len() == 1 && s[0] == 'C' {
        Some(Role::Chair)
    } else if s.len() == 1 && s[0] == 'P' {
        Some(Role::Panelist)
    } else if s.len() == 1 && s[0] == 'T' {
        Some(Role::Trainee)
    } else {
        None
    }
}

impl Role {
    /// The one-letter code of the role: "T", "P" or "C".
    pub fn to_string(&self) -> (s: String)
        ensures
            s@ == role_code(*self),
    {
        match self {
            Role::Trainee => String::from_str("T"),
            Role::Panelist => String::from_str("P"),
            Role::Chair => String::from_str("C"),
        }
    }

    /// Reads a role from its code; the empty code is a panelist, and any
    /// other text is refused.
    pub fn of_str(item: &str) -> (r: Result<Role, String>)
        ensures
            role_of_code(item@) matches Some(x) ==> r == Ok::<Role, String>(x),
            role_of_code(item@) is None ==> (r matches Err(m) && m@ == "Invalid role: "@ + item@),
    {
        proof {
            reveal_strlit("C");
            reveal_strlit("P");
            reveal_strlit("T");
            reveal_strlit("");
        }
        if str_eq(item, "C") {
            Ok(Role::Chair)
        } else if str_eq(item, "P") {
            Ok(Role::Panelist)
        } else if str_eq(item, "T") {
            Ok(Role::Trainee)
        } else if str_eq(item, "") {
            Ok(Role::Panelist)
        } else {
            let m = String::from_str("Invalid role: ").concat(item);
            proof {
                if item@.len() == 0 {
                    assert(item@ =~= ""@);
                }
                if item@.len() == 1 && item@[0] == 'C' {
                    assert(item@ =~= "C"@);
                }
                if item@.len() == 1 && item@[0] == 'P' {
                    assert(item@ =~= "P"@);
                }
                if item@.len() == 1 && item@[0] == 'T' {
                    assert(item@ =~= "T"@);
                }
            }
            Err(m)
        }
    }

    /// Reads a role from its code, which is "C", "P" or "T".
    pub fn from_str(item: &str) -> (r: Role)
        requires
            item@ == "C"@ || item@ == "P"@ || item@ == "T"@,
        ensures
            role_code(r) == item@,
    {
        proof {
            reveal_strlit("C");
            reveal_strlit("P");
            reveal_strlit("T");
        }
        if str_eq(item, "C") {
            Role::Chair
        } else if str_eq(item, "P") {
            Role::Panelist
        } else {
            Role::Trainee
        }
    }
}

/// A command of the draw editor's command bar: move the judge with the
/// given number to the debate with the given number (or off every panel)
/// in a role.
pub enum Cmd {
    Trainee(u32, Option<u32>),
    Panelist(u32, Option<u32>),
    Chair(u32, Option<u32>),
}

/// The judge number, debate number and role of a command.
pub fn cmd_parts(cmd: &Cmd) -> (r: (u32, Option<u32>, Role))
    ensures
        match *cmd {
            Cmd::Trainee(j, d) => r == (j, d, Role::Trainee),
            Cmd::Panelist(j, d) => r == (j, d, Role::Panelist),
            Cmd::Chair(j, d) => r == (j, d, Role::Chair),
        },
{
    match cmd {
        Cmd::Trainee(j, d) => (*j, *d, Role::Trainee),
        Cmd::Panelist(j, d) => (*j, *d, Role::Panelist),
        Cmd::Chair(j, d) => (*j, *d, Role::Chair),
    }
}

/// The classes of the link of a judge in a role.
pub open spec fn role_class_text(role: Role) -> Seq<char> {
    match role {
        Role::Chair => "judge-pill judge-pill-chair"@,
        Role::Panelist => "judge-pill judge-pill-panelist"@,
        Role::Trainee => "judge-pill judge-pill-trainee"@,
    }
}

/// The classes of the link of a judge in a role.
pub fn role_class(role: Role) -> (r: String)
    ensures
        r@ == role_class_text(role),
{
    match role {
        Role::Chair => String::from_str("judge-pill judge-pill-chair"),
        Role::Panelist => String::from_str("judge-pill judge-pill-panelist"),
        Role::Trainee => String::from_str("judge-pill judge-pill-trainee"),
    }
}

/// The message shown for an error code of the draw editor: only a
/// conflict has one.
pub fn draw_error_message(code: Option<&str>) -> (r: Option<&'static str>)
    ensures
        (code matches Some(c) && c@ == "conflict"@) ==> (r matches Some(m) && m@
            == "One of those panels was modified, please try again."@),
        !(code matches Some(c) && c@ == "conflict"@) ==> r is None,
{
    match code {
        Some(c) => {
            if str_eq(c, "conflict") {
                Some("One of those panels was modified, please try again.")
            } else {
                None
            }
        },
        None => None,
    }
}

/// The query that selects the given rounds: `rounds=<id>` for each round,
/// joined by `&`.
pub open spec fn rounds_query_text(ids: Seq<Seq<char>>) -> Seq<char>
    decreases ids.len(),
{
    if ids.len() == 0 {
        seq![]
    } else if ids.len() == 1 {
        "rounds="@ + ids[0]
    } else {
        rounds_query_text(ids.drop_last()) + "&rounds="@ + ids.last()
    }
}

/// The query that selects the given rounds.
pub fn rounds_query(round_ids: &Vec<String>) -> (r: String)
    ensures
        r@ == rounds_query_text(crate::seqs::views(round_ids@)),
{
    let mut out = String::new();
    let mut i: usize = 0;
    while i < round_ids.len()
        invariant
            i <= round_ids.len(),
            out@ == rounds_query_text(crate::seqs::views(round_ids@.take(i as int))),
        decreases round_ids.len() - i,
    {
        let ghost before = round_ids@.take(i as int);
        proof {
            assert(round_ids@.take(i as int + 1).drop_last() =~= before);
            assert(crate::seqs::views(round_ids@.take(i as int + 1)).drop_last() =~= crate::seqs::views(before));
            assert(crate::seqs::views(round_ids@.take(i as int + 1)).last() == round_ids@[i as int]@);
        }
        if i == 0 {
            out = String::from_str("rounds=").concat(round_ids[i].as_str());
            proof {
                assert(crate::seqs::views(round_ids@.take(1))[0] == round_ids@[0]@);
            }
        } else {
            out = out.concat("&rounds=").concat(round_ids[i].as_str());
        }
        i = i + 1;
    }
    proof {
        assert(round_ids@.take(round_ids@.len() as int) =~= round_ids@);
    }
    out
}

/// The address of the draw editor for the given rounds.
pub open spec fn edit_path_text(tournament_id: Seq<char>, ids: Seq<Seq<char>>) -> Seq<char> {
    "/tournaments/"@ + tournament_id + "/rounds/draws/edit?"@ + rounds_query_text(ids)
}

/// The address of the draw editor for the given rounds.
pub fn edit_path_for_tournament_id(tournament_id: &str, round_ids: &Vec<String>) -> (r: String)
    ensures
        r@ == edit_path_text(tournament_id@, crate::seqs::views(round_ids@)),
{
    let q = rounds_query(round_ids);
    String::from_str("/tournaments/").concat(tournament_id).concat("/rounds/draws/edit?").concat(q.as_str())
}

/// The address of the draw editor of a tournament for the given rounds.
pub fn edit_path(tournament: &Tournament, round_ids: &Vec<String>) -> (r: String)
    ensures
        r@ == edit_path_text(tournament.id@, crate::seqs::views(round_ids@)),
{
    edit_path_for_tournament_id(tournament.id.as_str(), round_ids)
}

/// The address of the draw editor showing an error code.
pub fn edit_path_with_error(tournament_id: &str, round_ids: &Vec<String>, error: &str) -> (r: String)
    ensures
        r@ == edit_path_text(tournament_id@, crate::seqs::views(round_ids@)) + "&error="@ + error@,
{
    edit_path_for_tournament_id(tournament_id, round_ids).concat("&error=").concat(error)
}

/// Whether a text holds a character.
pub fn has_char(s: &str, c: char) -> (r: bool)
    ensures
        r == s@.contains(c),
{
    let n = s.unicode_len();
    let mut i: usize = 0;
    while i < n
        invariant
            n == s@.len(),
            i <= n,
            forall|k: int| 0 <= k < i ==> s@[k] != c,
        decreases n - i,
    {
        if s.get_char(i) == c {
            return true;
        }
        i = i + 1;
    }
    false
}

/// The address that asks for the draw editor alone, without the page
/// around it.
pub open spec fn partial_href_text(href: Seq<char>) -> Seq<char> {
    if href.contains('?') {
        href + "&partial=true"@
    } else {
        href + "?partial=true"@
    }
}

/// The address that asks for the draw editor alone.
pub fn partial_href(href: &str) -> (r: String)
    ensures
        r@ == partial_href_text(href@),
{
    if has_char(href, '?') {
        String::from_str(href).concat("&partial=true")
    } else {
        String::from_str(href).concat("?partial=true")
    }
}

/// `text`, followed by `key` and `value` where a value is given.
pub open spec fn with_param(text: Seq<char>, key: Seq<char>, value: Option<Seq<char>>) -> Seq<char> {
    match value {
        Some(v) => text + key + v,
        None => text,
    }
}

/// The view of an optional text.
pub open spec fn opt_view(o: Option<&str>) -> Option<Seq<char>> {
    match o {
        Some(s) => Some(s@),
        None => None,
    }
}

/// The address that selects a judge in the draw editor, with the debate
/// the judge sits on.
pub fn select_judge_href(
    tournament: &Tournament,
    round_ids: &Vec<String>,
    judge_id: &str,
    source_debate_id: Option<&str>,
) -> (r: String)
    ensures
        r@ == with_param(
            edit_path_text(tournament.id@, crate::seqs::views(round_ids@)) + "&selected_judge_id="@ + judge_id@,
            "&source_debate_id="@,
            opt_view(source_debate_id),
        ),
{
    let href = edit_path(tournament, round_ids).concat("&selected_judge_id=").concat(judge_id);
    match source_debate_id {
        Some(s) => href.concat("&source_debate_id=").concat(s),
        None => href,
    }
}

/// The address that selects a room in the draw editor, with the debate
/// held in it.
pub fn select_room_href(
    tournament: &Tournament,
    round_ids: &Vec<String>,
    room_id: &str,
    source_debate_id: Option<&str>,
) -> (r: String)
    ensures
        r@ == with_param(
            edit_path_text(tournament.id@, crate::seqs::views(round_ids@)) + "&selected_room_id="@ + room_id@,
            "&source_room_debate_id="@,
            opt_view(source_debate_id),
        ),
{
    let href = edit_path(tournament, round_ids).concat("&selected_room_id=").concat(room_id);
    match source_debate_id {
        Some(s) => href.concat("&source_room_debate_id=").concat(s),
        None => href,
    }
}

/// The FNV-1a hash of some bytes, 64 bits wide.
pub open spec fn fnv1a(bytes: Seq<u8>) -> u64
    decreases bytes.len(),
{
    if bytes.len() == 0 {
        0xcbf29ce484222325u64
    } else {
        let h = fnv1a(bytes.drop_last()) ^ (bytes.last() as u64);
        ((h as nat * 0x100000001b3nat) % 0x10000000000000000nat) as u64
    }
}

/// A short signature of a text: the FNV-1a hash of its UTF-8 bytes, as
/// sixteen hexadecimal digits.
pub fn stable_signature(input: &str) -> (r: String)
    ensures
        r@ == hex_text(fnv1a(vstd::string::StringSliceAdditionalSpecFns::spec_bytes(input)) as nat, 16),
{
    let bytes = input.as_bytes();
    let mut hash: u64 = 0xcbf29ce484222325u64;
    let mut i: usize = 0;
    while i < bytes.len()
        invariant
            i <= bytes@.len(),
            bytes@ == vstd::string::StringSliceAdditionalSpecFns::spec_bytes(input),
            hash == fnv1a(bytes@.take(i as int)),
        decreases bytes@.len() - i,
    {
        proof {
            assert(bytes@.take(i as int + 1).drop_last() =~= bytes@.take(i as int));
        }
        hash = hash ^ (bytes[i] as u64);
        hash = hash.wrapping_mul(0x100000001b3u64);
        i = i + 1;
    }
    proof {
        assert(bytes@.take(bytes@.len() as int) =~= bytes@);
    }
    u64_to_hex(hash, 16)
}

} // verus!

verus! {

/// Whether text `a` comes no later than text `b` in the order of their
/// characters (the order in which `String`s compare).
pub open spec fn chars_le(a: Seq<char>, b: Seq<char>) -> bool
    decreases a.len(),
{
    if a.len() == 0 {
        true
    } else if b.len() == 0 {
        false
    } else if a[0] == b[0] {
        chars_le(a.drop_first(), b.drop_first())
    } else {
        (a[0] as int) < (b[0] as int)
    }
}

/// The order of texts is total.
pub proof fn lemma_chars_le_total(a: Seq<char>, b: Seq<char>)
    ensures
        chars_le(a, b) || chars_le(b, a),
    decreases a.len(),
{
    if a.len() > 0 && b.len() > 0 && a[0] == b[0] {
        lemma_chars_le_total(a.drop_first(), b.drop_first());
    }
}

/// Texts that come no later than each other are equal.
pub proof fn lemma_chars_le_antisymmetric(a: Seq<char>, b: Seq<char>)
    requires
        chars_le(a, b),
        chars_le(b, a),
    ensures
        a == b,
    decreases a.len(),
{
    if a.len() == 0 {
        assert(b.len() == 0);
        assert(a =~= b);
    } else {
        assert(a[0] == b[0]);
        lemma_chars_le_antisymmetric(a.drop_first(), b.drop_first());
        assert(a =~= seq![a[0]] + a.drop_first());
        assert(b =~= seq![b[0]] + b.drop_first());
    }
}

/// The order of texts is transitive.
pub proof fn lemma_chars_le_transitive(a: Seq<char>, b: Seq<char>, c: Seq<char>)
    requires
        chars_le(a, b),
        chars_le(b, c),
    ensures
        chars_le(a, c),
    decreases a.len(),
{
    if a.len() > 0 && b.len() > 0 && c.len() > 0 && a[0] == b[0] && b[0] == c[0] {
        lemma_chars_le_transitive(a.drop_first(), b.drop_first(), c.drop_first());
    }
}

/// Whether text `a` comes no later than text `b`.
pub fn chars_le_exec(a: &str, b: &str) -> (r: bool)
    ensures
        r == chars_le(a@, b@),
{
    let la = a.unicode_len();
    let lb = b.unicode_len();
    let mut i: usize = 0;
    proof {
        assert(a@.skip(0) =~= a@);
        assert(b@.skip(0) =~= b@);
    }
    while i < la && i < lb
        invariant
            la == a@.len(),
            lb == b@.len(),
            i <= la,
            i <= lb,
            chars_le(a@, b@) == chars_le(a@.skip(i as int), b@.skip(i as int)),
        decreases la - i,
    {
        let ca = a.get_char(i);
        let cb = b.get_char(i);
        proof {
            assert(a@.skip(i as int)[0] == ca);
            assert(b@.skip(i as int)[0] == cb);
        }
        if ca != cb {
            return (ca as u32) < (cb as u32);
        }
        proof {
            assert(a@.skip(i as int).drop_first() =~= a@.skip(i as int + 1));
            assert(b@.skip(i as int).drop_first() =~= b@.skip(i as int + 1));
        }
        i = i + 1;
    }
    proof {
        if i == la {
            assert(a@.skip(i as int).len() == 0);
        } else {
            assert(b@.skip(i as int).len() == 0);
        }
    }
    i == la
}

/// A row of a panel: a judge and the judge's status.
pub type PanelRow = (Seq<char>, Seq<char>);

/// The view of a row of strings.
pub open spec fn row_view(p: (String, String)) -> PanelRow {
    (p.0@, p.1@)
}

/// The views of rows of strings.
pub open spec fn row_views(rows: Seq<(String, String)>) -> Seq<PanelRow> {
    rows.map_values(|p: (String, String)| row_view(p))
}

/// The order of rows: by judge, then by status.
pub open spec fn row_le(a: PanelRow, b: PanelRow) -> bool {
    if a.0 == b.0 {
        chars_le(a.1, b.1)
    } else {
        chars_le(a.0, b.0)
    }
}

proof fn lemma_row_le_total(a: PanelRow, b: PanelRow)
    ensures
        row_le(a, b) || row_le(b, a),
{
    lemma_chars_le_total(a.0, b.0);
    lemma_chars_le_total(a.1, b.1);
}

proof fn lemma_row_le_antisymmetric(a: PanelRow, b: PanelRow)
    requires
        row_le(a, b),
        row_le(b, a),
    ensures
        a == b,
{
    if a.0 == b.0 {
        lemma_chars_le_antisymmetric(a.1, b.1);
    } else {
        lemma_chars_le_antisymmetric(a.0, b.0);
    }
}

proof fn lemma_row_le_transitive(a: PanelRow, b: PanelRow, c: PanelRow)
    requires
        row_le(a, b),
        row_le(b, c),
    ensures
        row_le(a, c),
{
    if a.0 == b.0 && b.0 == c.0 {
        lemma_chars_le_transitive(a.1, b.1, c.1);
    } else if a.0 == b.0 {
        assert(chars_le(a.0, c.0));
    } else if b.0 == c.0 {
        assert(chars_le(a.0, c.0));
    } else {
        lemma_chars_le_transitive(a.0, b.0, c.0);
        if a.0 == c.0 {
            lemma_chars_le_antisymmetric(a.0, b.0);
        }
    }
}

/// `x` put into `r` after the last row that comes no later than it.
pub open spec fn insert_row(r: Seq<PanelRow>, x: PanelRow) -> Seq<PanelRow>
    decreases r.len(),
{
    if r.len() == 0 {
        seq![x]
    } else if row_le(r.last(), x) {
        r.push(x)
    } else {
        insert_row(r.drop_last(), x).push(r.last())
    }
}

/// The rows in order, each put in its place in turn.
pub open spec fn sort_rows(s: Seq<PanelRow>) -> Seq<PanelRow>
    decreases s.len(),
{
    if s.len() == 0 {
        seq![]
    } else {
        insert_row(sort_rows(s.drop_last()), s.last())
    }
}

/// Whether rows are in order.
pub open spec fn rows_sorted(s: Seq<PanelRow>) -> bool {
    forall|i: int, j: int| 0 <= i < j < s.len() ==> row_le(#[trigger] s[i], #[trigger] s[j])
}

proof fn lemma_insert_row_at(r: Seq<PanelRow>, x: PanelRow, j: int)
    requires
        0 <= j <= r.len(),
        j == 0 || row_le(r[j - 1], x),
        forall|k: int| j <= k < r.len() ==> !row_le(#[trigger] r[k], x),
    ensures
        insert_row(r, x) == r.take(j) + seq![x] + r.skip(j),
    decreases r.len(),
{
    if r.len() == 0 {
        assert(r.take(j) + seq![x] + r.skip(j) =~= seq![x]);
    } else if j == r.len() {
        assert(r.take(j) + seq![x] + r.skip(j) =~= r.push(x));
    } else {
        let d = r.drop_last();
        assert forall|k: int| j <= k < d.len() implies !row_le(#[trigger] d[k], x) by {
            assert(d[k] == r[k]);
        }
        lemma_insert_row_at(d, x, j);
        assert(d.take(j) + seq![x] + d.skip(j) + seq![r.last()] =~= r.take(j) + seq![x] + r.skip(j));
    }
}

proof fn lemma_insert_row_multiset(r: Seq<PanelRow>, x: PanelRow)
    ensures
        insert_row(r, x).to_multiset() =~= r.to_multiset().insert(x),
    decreases r.len(),
{
    broadcast use vstd::seq_lib::group_to_multiset_ensures;
    broadcast use vstd::multiset::group_multiset_properties;

    if r.len() > 0 && !row_le(r.last(), x) {
        lemma_insert_row_multiset(r.drop_last(), x);
        assert(r.drop_last().push(r.last()) =~= r);
    }
}

proof fn lemma_insert_row_sorted(r: Seq<PanelRow>, x: PanelRow)
    requires
        rows_sorted(r),
    ensures
        rows_sorted(insert_row(r, x)),
        forall|y: PanelRow| #[trigger] insert_row(r, x).contains(y) ==> y == x || r.contains(y),
    decreases r.len(),
{
    if r.len() == 0 {
    } else if row_le(r.last(), x) {
        let s = r.push(x);
        assert forall|i: int, j: int| 0 <= i < j < s.len() implies row_le(#[trigger] s[i], #[trigger] s[j]) by {
            if j == s.len() - 1 && i < r.len() - 1 {
                lemma_row_le_transitive(r[i], r.last(), x);
            }
        }
        assert forall|y: PanelRow| #[trigger] s.contains(y) implies y == x || r.contains(y) by {
            let k = choose|k: int| 0 <= k < s.len() && s[k] == y;
            if k < r.len() {
                assert(r[k] == y);
            }
        }
    } else {
        let d = r.drop_last();
        assert(rows_sorted(d)) by {
            assert forall|i: int, j: int| 0 <= i < j < d.len() implies row_le(#[trigger] d[i], #[trigger] d[j]) by {
                assert(d[i] == r[i] && d[j] == r[j]);
            }
        }
        lemma_insert_row_sorted(d, x);
        let u = insert_row(d, x);
        let s = u.push(r.last());
        lemma_row_le_total(r.last(), x);
        assert forall|i: int, j: int| 0 <= i < j < s.len() implies row_le(#[trigger] s[i], #[trigger] s[j]) by {
            if j == s.len() - 1 {
                assert(u.contains(u[i]));
                if u[i] != x {
                    let k = choose|k: int| 0 <= k < d.len() && d[k] == u[i];
                    assert(r[k] == d[k]);
                }
            }
        }
        assert forall|y: PanelRow| #[trigger] s.contains(y) implies y == x || r.contains(y) by {
            let k = choose|k: int| 0 <= k < s.len() && s[k] == y;
            if k < u.len() {
                assert(u.contains(y));
                if y != x {
                    let m = choose|m: int| 0 <= m < d.len() && d[m] == y;
                    assert(r[m] == y);
                }
            } else {
                assert(r[r.len() - 1] == y);
            }
        }
    }
}

/// Sorting keeps the rows and puts them in order.
pub proof fn lemma_sort_rows_props(s: Seq<PanelRow>)
    ensures
        rows_sorted(sort_rows(s)),
        sort_rows(s).to_multiset() =~= s.to_multiset(),
    decreases s.len(),
{
    broadcast use vstd::seq_lib::group_to_multiset_ensures;

    if s.len() > 0 {
        lemma_sort_rows_props(s.drop_last());
        lemma_insert_row_sorted(sort_rows(s.drop_last()), s.last());
        lemma_insert_row_multiset(sort_rows(s.drop_last()), s.last());
        assert(s.drop_last().push(s.last()) =~= s);
    }
}

/// Two ordered sequences of the same rows are the same sequence.
pub proof fn lemma_sorted_rows_unique(a: Seq<PanelRow>, b: Seq<PanelRow>)
    requires
        rows_sorted(a),
        rows_sorted(b),
        a.to_multiset() =~= b.to_multiset(),
    ensures
        a == b,
    decreases a.len(),
{
    broadcast use vstd::seq_lib::group_to_multiset_ensures;
    broadcast use vstd::multiset::group_multiset_properties;

    if a.len() == 0 {
        assert(b.to_multiset().len() == 0);
        assert(b.len() == 0);
        assert(a =~= b);
    } else {
        assert(a.to_multiset().len() == b.to_multiset().len());
        assert(b.len() == a.len());
        assert(a.to_multiset().count(a[0]) > 0);
        assert(b.contains(a[0]));
        let j = choose|j: int| 0 <= j < b.len() && b[j] == a[0];
        assert(a.to_multiset().count(b[0]) > 0);
        assert(a.contains(b[0]));
        let i = choose|i: int| 0 <= i < a.len() && a[i] == b[0];
        if j > 0 {
            assert(row_le(b[0], b[j]));
        }
        if i > 0 {
            assert(row_le(a[0], a[i]));
        }
        lemma_row_le_total(a[0], b[0]);
        if j > 0 && i > 0 {
            lemma_row_le_antisymmetric(a[0], b[0]);
        }
        assert(a[0] == b[0]) by {
            if j > 0 && i == 0 {
            } else if i > 0 && j == 0 {
            }
        }
        let a1 = a.drop_first();
        let b1 = b.drop_first();
        assert(a.remove(0) =~= a1);
        assert(b.remove(0) =~= b1);
        assert(a1.to_multiset() =~= a.to_multiset().remove(a[0]));
        assert(b1.to_multiset() =~= b.to_multiset().remove(b[0]));
        assert(rows_sorted(a1)) by {
            assert forall|p: int, q: int| 0 <= p < q < a1.len() implies row_le(#[trigger] a1[p], #[trigger] a1[q]) by {
                assert(a1[p] == a[p + 1] && a1[q] == a[q + 1]);
            }
        }
        assert(rows_sorted(b1)) by {
            assert forall|p: int, q: int| 0 <= p < q < b1.len() implies row_le(#[trigger] b1[p], #[trigger] b1[q]) by {
                assert(b1[p] == b[p + 1] && b1[q] == b[q + 1]);
            }
        }
        lemma_sorted_rows_unique(a1, b1);
        assert(a =~= seq![a[0]] + a1);
        assert(b =~= seq![b[0]] + b1);
    }
}

} // verus!

verus! {

/// Whether row `a` comes no later than row `b`.
fn row_le_exec(a: &(String, String), b: &(String, String)) -> (r: bool)
    ensures
        r == row_le(row_view(*a), row_view(*b)),
{
    if a.0 == b.0 {
        chars_le_exec(a.1.as_str(), b.1.as_str())
    } else {
        chars_le_exec(a.0.as_str(), b.0.as_str())
    }
}

/// The rows, sorted by judge and then by status.
fn sort_panel_rows(rows: &Vec<(String, String)>) -> (r: Vec<(String, String)>)
    ensures
        row_views(r@) == sort_rows(row_views(rows@)),
{
    let mut out: Vec<(String, String)> = Vec::new();
    let mut i: usize = 0;
    while i < rows.len()
        invariant
            i <= rows.len(),
            row_views(out@) == sort_rows(row_views(rows@.take(i as int))),
        decreases rows.len() - i,
    {
        let x = (rows[i].0.clone(), rows[i].1.clone());
        let ghost vx = row_view(x);
        let mut j: usize = out.len();
        loop
            invariant
                j <= out.len(),
                row_views(out@) == sort_rows(row_views(rows@.take(i as int))),
                vx == row_view(x),
                forall|k: int| j <= k < out@.len() ==> !row_le(#[trigger] row_view(out@[k]), vx),
            ensures
                j <= out.len(),
                j == 0 || row_le(row_view(out@[j - 1]), vx),
                forall|k: int| j <= k < out@.len() ==> !row_le(#[trigger] row_view(out@[k]), vx),
            decreases j,
        {
            if j == 0 {
                break;
            }
            if row_le_exec(&out[j - 1], &x) {
                break;
            }
            j = j - 1;
        }
        let ghost before = row_views(out@);
        proof {
            assert forall|k: int| j <= k < before.len() implies !row_le(#[trigger] before[k], vx) by {
                assert(before[k] == row_view(out@[k]));
            }
            if j > 0 {
                assert(before[j - 1] == row_view(out@[j - 1]));
            }
            lemma_insert_row_at(before, vx, j as int);
        }
        out.insert(j, x);
        proof {
            assert(row_views(out@) =~= before.take(j as int) + seq![vx] + before.skip(j as int));
            assert(row_views(rows@.take(i as int + 1)).drop_last() =~= row_views(rows@.take(i as int)));
            assert(row_views(rows@.take(i as int + 1)).last() == vx);
        }
        i = i + 1;
    }
    proof {
        assert(rows@.take(rows@.len() as int) =~= rows@);
    }
    out
}

/// The canonical text of a panel: its kind, the debate where there is one,
/// and then a `|judge:status` entry for each row, in the order given.
pub open spec fn panel_text(kind: Seq<char>, debate_id: Option<Seq<char>>, rows: Seq<PanelRow>) -> Seq<char>
    decreases rows.len(),
{
    if rows.len() == 0 {
        with_param(kind, ":"@, debate_id)
    } else {
        panel_text(kind, debate_id, rows.drop_last()) + "|"@ + rows.last().0 + ":"@ + rows.last().1
    }
}

/// The snapshot of a panel: its canonical text with the rows sorted.
pub fn panel_snapshot(kind: &str, debate_id: Option<&str>, rows: Vec<(String, String)>) -> (r: String)
    ensures
        r@ == panel_text(kind@, opt_view(debate_id), sort_rows(row_views(rows@))),
{
    let sorted = sort_panel_rows(&rows);
    let ghost sv = row_views(sorted@);
    let mut canonical = String::from_str(kind);
    match debate_id {
        Some(id) => {
            canonical = canonical.concat(":").concat(id);
        },
        None => {},
    }
    let mut i: usize = 0;
    while i < sorted.len()
        invariant
            i <= sorted.len(),
            sv == row_views(sorted@),
            canonical@ == panel_text(kind@, opt_view(debate_id), sv.take(i as int)),
        decreases sorted.len() - i,
    {
        proof {
            assert(sv.take(i as int + 1).drop_last() =~= sv.take(i as int));
            assert(sv.take(i as int + 1).last() == row_view(sorted@[i as int]));
        }
        canonical = canonical.concat("|").concat(sorted[i].0.as_str()).concat(":").concat(sorted[i].1.as_str());
        i = i + 1;
    }
    proof {
        assert(sv.take(sv.len() as int) =~= sv);
    }
    canonical
}

/// The snapshot of a panel does not depend on the order in which its rows
/// are given: any two lists of the same rows give the same snapshot.
pub proof fn lemma_panel_snapshot_canonical(
    kind: Seq<char>,
    debate_id: Option<Seq<char>>,
    a: Seq<PanelRow>,
    b: Seq<PanelRow>,
)
    requires
        a.to_multiset() == b.to_multiset(),
    ensures
        panel_text(kind, debate_id, sort_rows(a)) == panel_text(kind, debate_id, sort_rows(b)),
{
    lemma_sort_rows_props(a);
    lemma_sort_rows_props(b);
    lemma_sorted_rows_unique(sort_rows(a), sort_rows(b));
}

/// The text that a change key signs.
pub open spec fn change_text(from_panel: Seq<char>, to_panel: Seq<char>) -> Seq<char> {
    "from:"@ + from_panel + "|to:"@ + to_panel
}

/// The key of a judge's move between two panels: the signature of the
/// snapshots of both.
pub fn panel_change_key(from_panel: &str, to_panel: &str) -> (r: String)
    ensures
        r@ == hex_text(fnv1a(vstd::utf8::encode_utf8(change_text(from_panel@, to_panel@))) as nat, 16),
{
    let canonical = String::from_str("from:").concat(from_panel).concat("|to:").concat(to_panel);
    stable_signature(canonical.as_str())
}

} // verus!

verus! {

/// The judges on the panel of a debate, in order.
pub open spec fn debate_judge_ids(d: DebateRepr) -> Seq<String> {
    d.judges_of_debate@.map_values(|dj: DebateJudge| dj.judge_id)
}

/// The judges on the panels of some debates, debate by debate.
pub open spec fn debates_judge_ids(ds: Seq<DebateRepr>) -> Seq<String>
    decreases ds.len(),
{
    if ds.len() == 0 {
        seq![]
    } else {
        debates_judge_ids(ds.drop_last()) + debate_judge_ids(ds.last())
    }
}

/// The judges on the panels of the debates of some rounds, round by round.
pub open spec fn reprs_judge_ids(rs: Seq<RoundDrawRepr>) -> Seq<String>
    decreases rs.len(),
{
    if rs.len() == 0 {
        seq![]
    } else {
        reprs_judge_ids(rs.drop_last()) + debates_judge_ids(rs.last().debates@)
    }
}

/// The rooms of some debates, for each debate that has one.
pub open spec fn debates_room_ids(ds: Seq<DebateRepr>) -> Seq<String>
    decreases ds.len(),
{
    if ds.len() == 0 {
        seq![]
    } else {
        debates_room_ids(ds.drop_last()) + match ds.last().debate.room_id {
            Some(id) => seq![id],
            None => seq![],
        }
    }
}

/// The rooms of the debates of some rounds, round by round.
pub open spec fn reprs_room_ids(rs: Seq<RoundDrawRepr>) -> Seq<String>
    decreases rs.len(),
{
    if rs.len() == 0 {
        seq![]
    } else {
        reprs_room_ids(rs.drop_last()) + debates_room_ids(rs.last().debates@)
    }
}

fn push_panel_judges(out: &mut Vec<String>, d: &DebateRepr)
    ensures
        final(out)@ == old(out)@ + debate_judge_ids(*d),
{
    let mut k: usize = 0;
    while k < d.judges_of_debate.len()
        invariant
            k <= d.judges_of_debate@.len(),
            out@ == old(out)@ + debate_judge_ids(*d).take(k as int),
        decreases d.judges_of_debate@.len() - k,
    {
        out.push(d.judges_of_debate[k].judge_id.clone());
        proof {
            assert(debate_judge_ids(*d).take(k as int + 1) =~= debate_judge_ids(*d).take(k as int).push(
                d.judges_of_debate@[k as int].judge_id,
            ));
        }
        k = k + 1;
    }
    proof {
        assert(debate_judge_ids(*d).take(d.judges_of_debate@.len() as int) =~= debate_judge_ids(*d));
    }
}

fn push_debates_judges(out: &mut Vec<String>, ds: &Vec<DebateRepr>)
    ensures
        final(out)@ == old(out)@ + debates_judge_ids(ds@),
{
    let mut i: usize = 0;
    while i < ds.len()
        invariant
            i <= ds@.len(),
            out@ == old(out)@ + debates_judge_ids(ds@.take(i as int)),
        decreases ds@.len() - i,
    {
        push_panel_judges(out, &ds[i]);
        proof {
            assert(ds@.take(i as int + 1).drop_last() =~= ds@.take(i as int));
        }
        i = i + 1;
    }
    proof {
        assert(ds@.take(ds@.len() as int) =~= ds@);
    }
}

fn push_debates_rooms(out: &mut Vec<String>, ds: &Vec<DebateRepr>)
    ensures
        final(out)@ == old(out)@ + debates_room_ids(ds@),
{
    let mut i: usize = 0;
    while i < ds.len()
        invariant
            i <= ds@.len(),
            out@ == old(out)@ + debates_room_ids(ds@.take(i as int)),
        decreases ds@.len() - i,
    {
        proof {
            assert(ds@.take(i as int + 1).drop_last() =~= ds@.take(i as int));
        }
        match &ds[i].debate.room_id {
            Some(id) => {
                out.push(id.clone());
            },
            None => {},
        }
        i = i + 1;
    }
    proof {
        assert(ds@.take(ds@.len() as int) =~= ds@);
    }
}

/// The strings with every string equal to an earlier one left out.
pub fn dedup_strings(v: &Vec<String>) -> (r: Vec<String>)
    ensures
        r@ == dedup(v@),
{
    let mut out: Vec<String> = Vec::new();
    let mut i: usize = 0;
    while i < v.len()
        invariant
            i <= v@.len(),
            out@ == dedup(v@.take(i as int)),
        decreases v@.len() - i,
    {
        proof {
            assert(v@.take(i as int + 1).drop_last() =~= v@.take(i as int));
        }
        push_unique(&mut out, v[i].clone());
        i = i + 1;
    }
    proof {
        assert(v@.take(v@.len() as int) =~= v@);
    }
    out
}

/// The judges that sit on a panel of any debate of the rounds, each once,
/// in the order they are first met.
pub fn allocated_judge_ids(reprs: &Vec<RoundDrawRepr>) -> (r: Vec<String>)
    ensures
        r@ == dedup(reprs_judge_ids(reprs@)),
        distinct_views(r@),
        forall|x: Seq<char>| views(r@).contains(x) <==> views(reprs_judge_ids(reprs@)).contains(x),
{
    let mut all: Vec<String> = Vec::new();
    let mut i: usize = 0;
    while i < reprs.len()
        invariant
            i <= reprs@.len(),
            all@ == reprs_judge_ids(reprs@.take(i as int)),
        decreases reprs@.len() - i,
    {
        push_debates_judges(&mut all, &reprs[i].debates);
        proof {
            assert(reprs@.take(i as int + 1).drop_last() =~= reprs@.take(i as int));
        }
        i = i + 1;
    }
    proof {
        assert(reprs@.take(reprs@.len() as int) =~= reprs@);
        lemma_dedup_props(all@);
    }
    dedup_strings(&all)
}

/// The rooms that hold a debate of the rounds, each once, in the order
/// they are first met.
pub fn allocated_room_ids(reprs: &Vec<RoundDrawRepr>) -> (r: Vec<String>)
    ensures
        r@ == dedup(reprs_room_ids(reprs@)),
        distinct_views(r@),
        forall|x: Seq<char>| views(r@).contains(x) <==> views(reprs_room_ids(reprs@)).contains(x),
{
    let mut all: Vec<String> = Vec::new();
    let mut i: usize = 0;
    while i < reprs.len()
        invariant
            i <= reprs@.len(),
            all@ == reprs_room_ids(reprs@.take(i as int)),
        decreases reprs@.len() - i,
    {
        push_debates_rooms(&mut all, &reprs[i].debates);
        proof {
            assert(reprs@.take(i as int + 1).drop_last() =~= reprs@.take(i as int));
        }
        i = i + 1;
    }
    proof {
        assert(reprs@.take(reprs@.len() as int) =~= reprs@);
        lemma_dedup_props(all@);
    }
    dedup_strings(&all)
}

} // verus!

verus! {

/// The debates of some rounds, round by round.
pub open spec fn all_debates(rs: Seq<RoundDrawRepr>) -> Seq<DebateRepr>
    decreases rs.len(),
{
    if rs.len() == 0 {
        seq![]
    } else {
        all_debates(rs.drop_last()) + rs.last().debates@
    }
}

/// The debates of the rounds, round by round.
pub fn debates_of_reprs<'a>(reprs: &'a Vec<RoundDrawRepr>) -> (r: Vec<&'a DebateRepr>)
    ensures
        r@.len() == all_debates(reprs@).len(),
        forall|k: int| 0 <= k < r@.len() ==> *(#[trigger] r@[k]) == all_debates(reprs@)[k],
{
    let mut out: Vec<&'a DebateRepr> = Vec::new();
    let mut i: usize = 0;
    while i < reprs.len()
        invariant
            i <= reprs@.len(),
            out@.len() == all_debates(reprs@.take(i as int)).len(),
            forall|k: int| 0 <= k < out@.len() ==> *(#[trigger] out@[k]) == all_debates(reprs@.take(i as int))[k],
        decreases reprs@.len() - i,
    {
        let ds = &reprs[i].debates;
        let ghost prev = all_debates(reprs@.take(i as int));
        let ghost start = out@.len();
        proof {
            assert(reprs@.take(i as int + 1).drop_last() =~= reprs@.take(i as int));
            assert(all_debates(reprs@.take(i as int + 1)) == prev + ds@);
        }
        let mut j: usize = 0;
        while j < ds.len()
            invariant
                j <= ds@.len(),
                start == prev.len(),
                out@.len() == start + j,
                forall|k: int| 0 <= k < out@.len() ==> *(#[trigger] out@[k]) == (prev + ds@)[k],
            decreases ds@.len() - j,
        {
            out.push(&ds[j]);
            j = j + 1;
        }
        i = i + 1;
    }
    proof {
        assert(reprs@.take(reprs@.len() as int) =~= reprs@);
    }
    out
}

} // verus!

verus! {

/// The rows of the panel of a debate: each judge with their status.
pub open spec fn debate_panel_rows(d: DebateRepr) -> Seq<PanelRow> {
    d.judges_of_debate@.map_values(|dj: DebateJudge| (dj.judge_id@, dj.status@))
}

/// The snapshot text of the panel of a debate.
pub open spec fn debate_panel_text(d: DebateRepr) -> Seq<char> {
    panel_text("debate"@, Some(d.debate.id@), sort_rows(debate_panel_rows(d)))
}

/// The snapshot of the panel of a debate.
pub fn panel_snapshot_for_debate(debate: &DebateRepr) -> (r: String)
    ensures
        r@ == debate_panel_text(*debate),
{
    let mut rows: Vec<(String, String)> = Vec::new();
    let mut k: usize = 0;
    while k < debate.judges_of_debate.len()
        invariant
            k <= debate.judges_of_debate@.len(),
            row_views(rows@) == debate_panel_rows(*debate).take(k as int),
        decreases debate.judges_of_debate@.len() - k,
    {
        let dj = &debate.judges_of_debate[k];
        let ghost before = rows@;
        let row = (dj.judge_id.clone(), dj.status.clone());
        rows.push(row);
        proof {
            assert(rows@ == before.push(row));
            assert(row_views(rows@) =~= row_views(before).push(row_view(row)));
            assert(debate_panel_rows(*debate).take(k as int + 1) =~= debate_panel_rows(*debate).take(k as int).push(
                row_view(row),
            ));
        }
        k = k + 1;
    }
    proof {
        assert(debate_panel_rows(*debate).take(debate.judges_of_debate@.len() as int) =~= debate_panel_rows(*debate));
    }
    panel_snapshot("debate", Some(debate.debate.id.as_str()), rows)
}

/// The rows of the judges on no panel: each with status "U", in the order
/// of `judges`.
pub open spec fn unallocated_rows(judges: Seq<Judge>, allocated: Seq<Seq<char>>) -> Seq<PanelRow>
    decreases judges.len(),
{
    if judges.len() == 0 {
        seq![]
    } else {
        let rest = unallocated_rows(judges.drop_last(), allocated);
        if allocated.contains(judges.last().id@) {
            rest
        } else {
            rest.push((judges.last().id@, "U"@))
        }
    }
}

/// The snapshot text of the judges on no panel of the rounds.
pub open spec fn unallocated_panel_text(p: TournamentParticipants, reprs: Seq<RoundDrawRepr>) -> Seq<char> {
    panel_text("unallocated"@, None, sort_rows(unallocated_rows(p.judges@, views(reprs_judge_ids(reprs)))))
}

/// The snapshot of the judges on no panel of the rounds.
pub fn panel_snapshot_for_unallocated_from_repr(
    participants: &TournamentParticipants,
    reprs: &Vec<RoundDrawRepr>,
) -> (r: String)
    ensures
        r@ == unallocated_panel_text(*participants, reprs@),
{
    proof {
        reveal_strlit("U");
    }
    let allocated = allocated_judge_ids(reprs);
    let ghost alloc = views(reprs_judge_ids(reprs@));
    let mut rows: Vec<(String, String)> = Vec::new();
    let mut k: usize = 0;
    while k < participants.judges.len()
        invariant
            k <= participants.judges@.len(),
            forall|x: Seq<char>| views(allocated@).contains(x) <==> alloc.contains(x),
            row_views(rows@) == unallocated_rows(participants.judges@.take(k as int), alloc),
        decreases participants.judges@.len() - k,
    {
        let judge = &participants.judges[k];
        proof {
            assert(participants.judges@.take(k as int + 1).drop_last() =~= participants.judges@.take(k as int));
        }
        if !contains_string(&allocated, &judge.id) {
            rows.push((judge.id.clone(), String::from_str("U")));
            proof {
                assert(row_views(rows@) =~= unallocated_rows(participants.judges@.take(k as int), alloc).push(
                    (judge.id@, "U"@),
                ));
            }
        }
        k = k + 1;
    }
    proof {
        assert(participants.judges@.take(participants.judges@.len() as int) =~= participants.judges@);
    }
    panel_snapshot("unallocated", None, rows)
}

/// Whether a debate has the given identifier.
pub open spec fn debate_has_id(id: Seq<char>) -> spec_fn(DebateRepr) -> bool {
    |d: DebateRepr| d.debate.id@ == id
}

/// The debate of the rounds with the given identifier (the first one).
pub open spec fn debate_with_id(reprs: Seq<RoundDrawRepr>, id: Seq<char>) -> Option<DebateRepr> {
    first_match(all_debates(reprs), debate_has_id(id))
}

/// The snapshot text of the panel a judge is taken from: the debate's
/// panel, or the unallocated judges where no debate is given.
pub open spec fn source_panel_text(
    p: TournamentParticipants,
    reprs: Seq<RoundDrawRepr>,
    source_debate_id: Option<Seq<char>>,
) -> Option<Seq<char>> {
    match source_debate_id {
        Some(id) => match debate_with_id(reprs, id) {
            Some(d) => Some(debate_panel_text(d)),
            None => None,
        },
        None => Some(unallocated_panel_text(p, reprs)),
    }
}

/// The snapshot of the panel a judge is taken from; nothing where the
/// given debate is not among the rounds.
pub fn source_panel_snapshot_from_repr(
    participants: &TournamentParticipants,
    reprs: &Vec<RoundDrawRepr>,
    source_debate_id: Option<&str>,
) -> (r: Option<String>)
    ensures
        match source_panel_text(*participants, reprs@, opt_view(source_debate_id)) {
            Some(t) => r matches Some(s) && s@ == t,
            None => r is None,
        },
{
    match source_debate_id {
        Some(id) => {
            let ds = debates_of_reprs(reprs);
            let ghost all = all_debates(reprs@);
            let mut k: usize = 0;
            while k < ds.len()
                invariant
                    k <= ds@.len(),
                    all == all_debates(reprs@),
                    source_debate_id == Some(id),
                    ds@.len() == all.len(),
                    forall|m: int| 0 <= m < ds@.len() ==> *(#[trigger] ds@[m]) == all[m],
                    forall|m: int| 0 <= m < k ==> !debate_has_id(id@)(#[trigger] all[m]),
                decreases ds@.len() - k,
            {
                if str_eq(ds[k].debate.id.as_str(), id) {
                    proof {
                        assert(*ds@[k as int] == all[k as int]);
                        assert(debate_has_id(id@)(all[k as int]));
                        lemma_first_match_at(all, debate_has_id(id@), k as int);
                        assert(debate_with_id(reprs@, id@) == Some(all[k as int]));
                    }
                    let snap = panel_snapshot_for_debate(ds[k]);
                    assert(snap@ == debate_panel_text(all[k as int]));
                    assert(opt_view(source_debate_id) == Some(id@));
                    return Some(snap);
                }
                k = k + 1;
            }
            proof {
                lemma_first_match_at(all, debate_has_id(id@), k as int);
            }
            None
        },
        None => Some(panel_snapshot_for_unallocated_from_repr(participants, reprs)),
    }
}

} // verus!

verus! {

/// Where a selected judge or room currently is: on no debate, or on the
/// debate with the given identifier.
pub enum JudgeAllocatedAt {
    Unallocated,
    Debate(String),
}

impl JudgeAllocatedAt {
    /// The debate, where there is one.
    pub fn debate_id(&self) -> (r: Option<&str>)
        ensures
            match *self {
                JudgeAllocatedAt::Unallocated => r is None,
                JudgeAllocatedAt::Debate(id) => r matches Some(s) && s@ == id@,
            },
    {
        match self {
            JudgeAllocatedAt::Unallocated => None,
            JudgeAllocatedAt::Debate(id) => Some(id.as_str()),
        }
    }
}

/// Whether a room has the given identifier.
pub open spec fn room_has_id(id: Seq<char>) -> spec_fn(Room) -> bool {
    |r: Room| r.id@ == id
}

/// Whether a debate is held in the room with the given identifier (and
/// the room is known).
pub open spec fn held_in_room(id: Seq<char>) -> spec_fn(DebateRepr) -> bool {
    |d: DebateRepr| d.room is Some && (d.debate.room_id matches Some(rid) && rid@ == id)
}

/// Where the room with the given identifier is: among the unallocated
/// rooms (the first of them), or else at the first debate held in it.
pub open spec fn selected_room_spec(
    rooms: Seq<Room>,
    reprs: Seq<RoundDrawRepr>,
    room_id: Seq<char>,
) -> Option<(Seq<char>, Option<Seq<char>>)> {
    match first_match(rooms, room_has_id(room_id)) {
        Some(room) => Some((room.id@, None)),
        None => match first_match(all_debates(reprs), held_in_room(room_id)) {
            Some(d) => Some((d.debate.room_id->0@, Some(d.debate.id@))),
            None => None,
        },
    }
}

/// The view of a location.
pub open spec fn location_view(l: JudgeAllocatedAt) -> Option<Seq<char>> {
    match l {
        JudgeAllocatedAt::Unallocated => None,
        JudgeAllocatedAt::Debate(id) => Some(id@),
    }
}

/// Finds the selected room: among the unallocated rooms, or at the debate
/// held in it.
pub fn selected_room_from_repr(
    unallocated_rooms: &Vec<Room>,
    reprs: &Vec<RoundDrawRepr>,
    room_id: &str,
) -> (r: Option<(String, JudgeAllocatedAt)>)
    ensures
        match selected_room_spec(unallocated_rooms@, reprs@, room_id@) {
            Some((id, loc)) => r matches Some(p) && p.0@ == id && location_view(p.1) == loc,
            None => r is None,
        },
{
    let mut k: usize = 0;
    while k < unallocated_rooms.len()
        invariant
            k <= unallocated_rooms@.len(),
            forall|m: int| 0 <= m < k ==> !room_has_id(room_id@)(#[trigger] unallocated_rooms@[m]),
        decreases unallocated_rooms@.len() - k,
    {
        if str_eq(unallocated_rooms[k].id.as_str(), room_id) {
            proof {
                lemma_first_match_at(unallocated_rooms@, room_has_id(room_id@), k as int);
            }
            return Some((unallocated_rooms[k].id.clone(), JudgeAllocatedAt::Unallocated));
        }
        k = k + 1;
    }
    proof {
        lemma_first_match_at(unallocated_rooms@, room_has_id(room_id@), k as int);
    }
    let ds = debates_of_reprs(reprs);
    let ghost all = all_debates(reprs@);
    let mut j: usize = 0;
    while j < ds.len()
        invariant
            j <= ds@.len(),
            all == all_debates(reprs@),
            first_match(unallocated_rooms@, room_has_id(room_id@)) is None,
            ds@.len() == all.len(),
            forall|m: int| 0 <= m < ds@.len() ==> *(#[trigger] ds@[m]) == all[m],
            forall|m: int| 0 <= m < j ==> !held_in_room(room_id@)(#[trigger] all[m]),
        decreases ds@.len() - j,
    {
        let d = ds[j];
        proof {
            assert(*ds@[j as int] == all[j as int]);
        }
        if d.room.is_some() {
            match &d.debate.room_id {
                Some(rid) => {
                    if str_eq(rid.as_str(), room_id) {
                        proof {
                            lemma_first_match_at(all, held_in_room(room_id@), j as int);
                        }
                        return Some((rid.clone(), JudgeAllocatedAt::Debate(d.debate.id.clone())));
                    }
                },
                None => {},
            }
        }
        j = j + 1;
    }
    proof {
        lemma_first_match_at(all, held_in_room(room_id@), j as int);
    }
    None
}

/// A judge selected in the draw editor: the judge, where the judge sits,
/// and the snapshot of the panel the judge sits on.
pub struct SelectedJudge {
    pub judge: Judge,
    pub location: JudgeAllocatedAt,
    pub panel_snapshot: String,
}

/// A room selected in the draw editor, and where it is.
pub struct SelectedRoom {
    pub room_id: String,
    pub location: JudgeAllocatedAt,
}

/// What is selected in the draw editor.
pub enum DrawAllocatorState {
    Allocation,
    JudgeSelected(SelectedJudge),
    RoomSelected(SelectedRoom),
}

/// What the draw editor selects, given the parameters of its address: a
/// known judge whose source panel can be found; else a room that can be
/// found; else nothing.
pub open spec fn from_query_spec(
    p: TournamentParticipants,
    rooms: Seq<Room>,
    reprs: Seq<RoundDrawRepr>,
    selected_judge_id: Option<Seq<char>>,
    source_debate_id: Option<Seq<char>>,
    selected_room_id: Option<Seq<char>>,
    r: DrawAllocatorState,
) -> bool {
    let judge = match selected_judge_id {
        Some(id) => first_match(p.judges@, judge_has_id(id)),
        None => None,
    };
    let room = match selected_room_id {
        Some(id) => selected_room_spec(rooms, reprs, id),
        None => None,
    };
    match judge {
        Some(j) => match source_panel_text(p, reprs, source_debate_id) {
            Some(t) => r matches DrawAllocatorState::JudgeSelected(sel) && sel.judge == j
                && location_view(sel.location) == source_debate_id && sel.panel_snapshot@ == t,
            None => r is Allocation,
        },
        None => match room {
            Some((id, loc)) => r matches DrawAllocatorState::RoomSelected(sel) && sel.room_id@ == id
                && location_view(sel.location) == loc,
            None => r is Allocation,
        },
    }
}

/// The judge with the given identifier, if any (the first one).
fn find_judge<'a>(judges: &'a Vec<Judge>, id: &str) -> (r: Option<&'a Judge>)
    ensures
        match first_match(judges@, judge_has_id(id@)) {
            Some(j) => r matches Some(x) && *x == j,
            None => r is None,
        },
{
    let mut k: usize = 0;
    while k < judges.len()
        invariant
            k <= judges@.len(),
            forall|m: int| 0 <= m < k ==> !judge_has_id(id@)(#[trigger] judges@[m]),
        decreases judges@.len() - k,
    {
        if str_eq(judges[k].id.as_str(), id) {
            proof {
                lemma_first_match_at(judges@, judge_has_id(id@), k as int);
            }
            return Some(&judges[k]);
        }
        k = k + 1;
    }
    proof {
        lemma_first_match_at(judges@, judge_has_id(id@), k as int);
    }
    None
}

impl DrawAllocatorState {
    /// What the draw editor selects, given the parameters of its address.
    pub fn from_query(
        participants: &TournamentParticipants,
        unallocated_rooms: &Vec<Room>,
        reprs: &Vec<RoundDrawRepr>,
        selected_judge_id: Option<&str>,
        source_debate_id: Option<&str>,
        selected_room_id: Option<&str>,
        _source_room_debate_id: Option<&str>,
    ) -> (r: Self)
        ensures
            from_query_spec(
                *participants,
                unallocated_rooms@,
                reprs@,
                opt_view(selected_judge_id),
                opt_view(source_debate_id),
                opt_view(selected_room_id),
                r,
            ),
    {
        let judge = match selected_judge_id {
            Some(id) => find_judge(&participants.judges, id),
            None => None,
        };
        match judge {
            Some(judge) => {
                let snapshot = source_panel_snapshot_from_repr(participants, reprs, source_debate_id);
                match snapshot {
                    None => DrawAllocatorState::Allocation,
                    Some(panel_snapshot) => {
                        let location = match source_debate_id {
                            Some(debate_id) => JudgeAllocatedAt::Debate(String::from_str(debate_id)),
                            None => JudgeAllocatedAt::Unallocated,
                        };
                        DrawAllocatorState::JudgeSelected(
                            SelectedJudge { judge: judge.clone(), location, panel_snapshot },
                        )
                    },
                }
            },
            None => {
                match selected_room_id {
                    Some(room_id) => {
                        match selected_room_from_repr(unallocated_rooms, reprs, room_id) {
                            Some((room_id, location)) => DrawAllocatorState::RoomSelected(
                                SelectedRoom { room_id, location },
                            ),
                            None => DrawAllocatorState::Allocation,
                        }
                    },
                    None => DrawAllocatorState::Allocation,
                }
            },
        }
    }

    /// The selected judge, if a judge is selected.
    pub fn selected_judge(&self) -> (r: Option<&Judge>)
        ensures
            match *self {
                DrawAllocatorState::JudgeSelected(sel) => r matches Some(j) && *j == sel.judge,
                _ => r is None,
            },
    {
        match self {
            DrawAllocatorState::Allocation => None,
            DrawAllocatorState::JudgeSelected(source) => Some(&source.judge),
            DrawAllocatorState::RoomSelected(_) => None,
        }
    }

    /// Whether the judge with the given identifier is selected.
    pub fn selected_judge_is(&self, judge_id: &str) -> (r: bool)
        ensures
            r == (self matches DrawAllocatorState::JudgeSelected(sel) && sel.judge.id@ == judge_id@),
    {
        match self.selected_judge() {
            Some(judge) => str_eq(judge.id.as_str(), judge_id),
            None => false,
        }
    }

    /// Whether the room with the given identifier is selected.
    pub fn selected_room_is(&self, room_id: &str) -> (r: bool)
        ensures
            r == (self matches DrawAllocatorState::RoomSelected(sel) && sel.room_id@ == room_id@),
    {
        match self {
            DrawAllocatorState::RoomSelected(source) => str_eq(source.room_id.as_str(), room_id),
            DrawAllocatorState::Allocation => false,
            DrawAllocatorState::JudgeSelected(_) => false,
        }
    }
}

/// The classes of a link, with "selected" added where it is selected.
pub open spec fn link_class_text(selected: bool, base_class: Seq<char>) -> Seq<char> {
    if selected {
        base_class + " selected"@
    } else {
        base_class
    }
}

/// The classes of the link of a judge.
pub fn judge_link_class(state: &DrawAllocatorState, judge_id: &str, base_class: &str) -> (r: String)
    ensures
        r@ == link_class_text(
            state matches DrawAllocatorState::JudgeSelected(sel) && sel.judge.id@ == judge_id@,
            base_class@,
        ),
{
    if state.selected_judge_is(judge_id) {
        String::from_str(base_class).concat(" selected")
    } else {
        String::from_str(base_class)
    }
}

/// The classes of the link of a room.
pub fn room_link_class(state: &DrawAllocatorState, room_id: &str, base_class: &str) -> (r: String)
    ensures
        r@ == link_class_text(
            state matches DrawAllocatorState::RoomSelected(sel) && sel.room_id@ == room_id@,
            base_class@,
        ),
{
    if state.selected_room_is(room_id) {
        String::from_str(base_class).concat(" selected")
    } else {
        String::from_str(base_class)
    }
}

} // verus!

verus! {

/// A seat on a panel, seen as texts: the debate, the judge, the status and
/// the tournament.
pub type SeatView = (Seq<char>, Seq<char>, Seq<char>, Seq<char>);

/// The view of a seat.
pub open spec fn seat_view(r: DebateJudge) -> SeatView {
    (r.debate_id@, r.judge_id@, r.status@, r.tournament_id@)
}

/// The views of some seats.
pub open spec fn seat_views(rows: Seq<DebateJudge>) -> Seq<SeatView> {
    rows.map_values(|r: DebateJudge| seat_view(r))
}

/// The identifiers of some seats, in order.
pub open spec fn seat_ids(rows: Seq<DebateJudge>) -> Seq<Seq<char>> {
    rows.map_values(|r: DebateJudge| r.id@)
}

/// The identifiers of the seats that a judge's move keeps, in order: those
/// of every seat but the judge's seats at debates of the round sequence.
pub open spec fn kept_seat_ids(rows: Seq<DebateJudge>, judge: Seq<char>, seq_debates: Seq<Seq<char>>) -> Seq<Seq<char>>
    decreases rows.len(),
{
    if rows.len() == 0 {
        seq![]
    } else {
        let rest = kept_seat_ids(rows.drop_last(), judge, seq_debates);
        if rows.last().judge_id@ == judge && seq_debates.contains(rows.last().debate_id@) {
            rest
        } else {
            rest.push(rows.last().id@)
        }
    }
}

/// The seats after a change keep the identifiers `kept`, in order, and
/// then, where a seat was added, hold one more seat with an identifier of
/// its own.
pub open spec fn ids_kept(after: Seq<DebateJudge>, kept: Seq<Seq<char>>, added: bool) -> bool {
    if added {
        after.len() == kept.len() + 1 && seat_ids(after).drop_last() == kept
    } else {
        seat_ids(after) == kept
    }
}

/// What becomes of a seat when a judge leaves every debate of a round
/// sequence and, where the judge comes in as chair of a debate, the
/// sitting chairs of that debate step down to panelist: nothing where the
/// seat is the judge's.
pub open spec fn seat_after_move(
    s: SeatView,
    judge: Seq<char>,
    seq_debates: Seq<Seq<char>>,
    chair_target: Option<Seq<char>>,
) -> Option<SeatView> {
    if s.1 == judge && seq_debates.contains(s.0) {
        None
    } else if chair_target == Some(s.0) && s.2 == "C"@ {
        Some((s.0, s.1, "P"@, s.3))
    } else {
        Some(s)
    }
}

/// The seats after such a move, in their order, before the judge's new
/// seat is added.
pub open spec fn seats_after_move(
    rows: Seq<SeatView>,
    judge: Seq<char>,
    seq_debates: Seq<Seq<char>>,
    chair_target: Option<Seq<char>>,
) -> Seq<SeatView>
    decreases rows.len(),
{
    if rows.len() == 0 {
        seq![]
    } else {
        let rest = seats_after_move(rows.drop_last(), judge, seq_debates, chair_target);
        match seat_after_move(rows.last(), judge, seq_debates, chair_target) {
            Some(s) => rest.push(s),
            None => rest,
        }
    }
}

/// The seats of debates outside a round sequence.
pub open spec fn seats_outside(rows: Seq<SeatView>, seq_debates: Seq<Seq<char>>) -> Seq<SeatView> {
    rows.filter(outside_of(seq_debates))
}

/// Whether a seat is at a debate outside a round sequence.
pub open spec fn outside_of(seq_debates: Seq<Seq<char>>) -> spec_fn(SeatView) -> bool {
    |s: SeatView| !seq_debates.contains(s.0)
}

/// The chair to demote, where the judge comes in as chair.
pub open spec fn chair_target_of(target: Option<(Seq<char>, Role)>) -> Option<Seq<char>> {
    match target {
        Some((t, Role::Chair)) => Some(t),
        _ => None,
    }
}

/// The seats after a judge is moved: the seats after the move, then the
/// judge's new seat where a target is given.
pub open spec fn seats_after_judge_move(
    rows: Seq<SeatView>,
    judge: Seq<char>,
    seq_debates: Seq<Seq<char>>,
    target: Option<(Seq<char>, Role)>,
    tournament_id: Seq<char>,
) -> Seq<SeatView> {
    let kept = seats_after_move(rows, judge, seq_debates, chair_target_of(target));
    match target {
        Some((t, role)) => kept.push((t, judge, role_code(role), tournament_id)),
        None => kept,
    }
}

proof fn lemma_seats_after_move_props(
    rows: Seq<SeatView>,
    judge: Seq<char>,
    seq_debates: Seq<Seq<char>>,
    chair_target: Option<Seq<char>>,
)
    ensures
        forall|i: int|
            0 <= i < seats_after_move(rows, judge, seq_debates, chair_target).len() ==> {
                let s = #[trigger] seats_after_move(rows, judge, seq_debates, chair_target)[i];
                &&& !(s.1 == judge && seq_debates.contains(s.0))
                &&& !(chair_target == Some(s.0) && s.2 == "C"@)
            },
        (chair_target matches Some(t) ==> seq_debates.contains(t)) ==> seats_outside(
            seats_after_move(rows, judge, seq_debates, chair_target),
            seq_debates,
        ) == seats_outside(rows, seq_debates),
    decreases rows.len(),
{
    reveal_strlit("C");
    reveal_strlit("P");
    if rows.len() > 0 {
        let d = rows.drop_last();
        lemma_seats_after_move_props(d, judge, seq_debates, chair_target);
        let rest = seats_after_move(d, judge, seq_debates, chair_target);
        let pred = outside_of(seq_debates);
        let x = rows.last();
        assert("P"@ != "C"@) by {
            assert("P"@[0] != "C"@[0]);
        }
        assert(rows == d.push(x));
        d.lemma_filter_push(x, pred);
        assert(rows.filter(pred) == (if pred(x) {
            d.filter(pred).push(x)
        } else {
            d.filter(pred)
        }));
        match seat_after_move(x, judge, seq_debates, chair_target) {
            Some(y) => {
                rest.lemma_filter_push(y, pred);
                if chair_target matches Some(t) ==> seq_debates.contains(t) {
                    assert(pred(y) == pred(x));
                    if pred(x) {
                        assert(y == x);
                    }
                }
                assert(seats_after_move(rows, judge, seq_debates, chair_target) == rest.push(y));
            },
            None => {
                assert(!pred(x));
                assert(seats_after_move(rows, judge, seq_debates, chair_target) == rest);
            },
        }
    }
}

/// Moves a judge among the panels of a round sequence: the judge leaves
/// every debate of the sequence and, where a target is given, takes a seat
/// there in the given role, a sitting chair stepping down to panelist when
/// the judge comes in as chair. Afterwards the judge sits on no other panel
/// of the sequence, the target has no other chair where the judge is its
/// chair, and the panels of other debates are as they were.
pub fn apply_judge_move(
    panels: &Vec<DebateJudge>,
    judge_id: &String,
    seq_debate_ids: &Vec<String>,
    target: Option<(&String, Role)>,
    tournament_id: &String,
) -> (r: Vec<DebateJudge>)
    ensures
        seat_views(r@) == seats_after_judge_move(
            seat_views(panels@),
            judge_id@,
            views(seq_debate_ids@),
            match target {
                Some(t) => Some((t.0@, t.1)),
                None => None,
            },
            tournament_id@,
        ),
        forall|i: int|
            0 <= i < r@.len() && (#[trigger] r@[i]).judge_id@ == judge_id@ && views(seq_debate_ids@).contains(
                r@[i].debate_id@,
            ) ==> (target matches Some(t) && i == r@.len() - 1 && r@[i].debate_id@ == t.0@
                && r@[i].status@ == role_code(t.1)),
        forall|i: int|
            0 <= i < r@.len() && (target matches Some(t) && t.1 == Role::Chair && (#[trigger] r@[i]).debate_id@
                == t.0@ && r@[i].status@ == "C"@) ==> r@[i].judge_id@ == judge_id@,
        (target matches Some(t) ==> views(seq_debate_ids@).contains(t.0@)) ==> seats_outside(
            seat_views(r@),
            views(seq_debate_ids@),
        ) == seats_outside(seat_views(panels@), views(seq_debate_ids@)),
        ids_kept(r@, kept_seat_ids(panels@, judge_id@, views(seq_debate_ids@)), target is Some),
{
    let ghost seq_ids = views(seq_debate_ids@);
    let ghost tgt = match target {
        Some(t) => Some((t.0@, t.1)),
        None => None,
    };
    let ghost chair = chair_target_of(tgt);
    let chair_target: Option<&String> = match target {
        Some((t, Role::Chair)) => Some(t),
        _ => None,
    };
    proof {
        reveal_strlit("C");
        reveal_strlit("P");
    }
    let mut out: Vec<DebateJudge> = Vec::new();
    let mut k: usize = 0;
    while k < panels.len()
        invariant
            k <= panels@.len(),
            seq_ids == views(seq_debate_ids@),
            chair == chair_target_of(tgt),
            chair == match chair_target {
                Some(t) => Some(t@),
                None => None::<Seq<char>>,
            },
            seat_views(out@) == seats_after_move(seat_views(panels@.take(k as int)), judge_id@, seq_ids, chair),
            seat_ids(out@) == kept_seat_ids(panels@.take(k as int), judge_id@, seq_ids),
        decreases panels@.len() - k,
    {
        let row = &panels[k];
        let ghost before = out@;
        proof {
            assert(panels@.take(k as int + 1).drop_last() =~= panels@.take(k as int));
            assert(panels@.take(k as int + 1).last() == *row);
            assert(seat_views(panels@.take(k as int + 1)) =~= seat_views(panels@.take(k as int)).push(
                seat_view(*row),
            ));
            assert(seat_views(panels@.take(k as int + 1)).drop_last() =~= seat_views(panels@.take(k as int)));
        }
        let in_seq = contains_string(seq_debate_ids, &row.debate_id);
        if *judge_id == row.judge_id && in_seq {
        } else {
            let demote = match chair_target {
                Some(t) => *t == row.debate_id && crate::text::eq_lit(&row.status, "C"),
                None => false,
            };
            let status = if demote {
                String::from_str("P")
            } else {
                row.status.clone()
            };
            let seat = DebateJudge {
                id: row.id.clone(),
                tournament_id: row.tournament_id.clone(),
                debate_id: row.debate_id.clone(),
                judge_id: row.judge_id.clone(),
                status,
            };
            out.push(seat);
            proof {
                assert(seat_views(out@) =~= seat_views(before).push(seat_view(seat)));
                assert(seat_ids(out@) =~= seat_ids(before).push(row.id@));
            }
        }
        k = k + 1;
    }
    proof {
        assert(panels@.take(panels@.len() as int) =~= panels@);
        lemma_seats_after_move_props(seat_views(panels@), judge_id@, seq_ids, chair);
    }
    let ghost kept = out@;
    match target {
        Some((t, role)) => {
            out.push(
                DebateJudge {
                    id: crate::aggregate::new_id(),
                    debate_id: t.clone(),
                    judge_id: judge_id.clone(),
                    status: role.to_string(),
                    tournament_id: tournament_id.clone(),
                },
            );
            proof {
                assert(seat_views(out@) =~= seat_views(kept).push((t@, judge_id@, role_code(role), tournament_id@)));
                assert(seat_ids(out@).drop_last() =~= seat_ids(kept));
            }
        },
        None => {},
    }
    proof {
        let sv = seat_views(out@);
        assert forall|i: int| 0 <= i < kept.len() implies #[trigger] seat_views(kept)[i] == seat_view(out@[i]) by {
        }
        assert forall|i: int|
            0 <= i < out@.len() && (#[trigger] out@[i]).judge_id@ == judge_id@ && seq_ids.contains(
                out@[i].debate_id@,
            ) implies (target matches Some(t) && i == out@.len() - 1 && out@[i].debate_id@ == t.0@
            && out@[i].status@ == role_code(t.1)) by {
            if i < kept.len() {
                assert(seat_views(kept)[i] == seat_view(out@[i]));
            }
        }
        assert forall|i: int|
            0 <= i < out@.len() && (target matches Some(t) && t.1 == Role::Chair && (#[trigger] out@[i]).debate_id@
                == t.0@ && out@[i].status@ == "C"@) implies out@[i].judge_id@ == judge_id@ by {
            if i < kept.len() {
                assert(seat_views(kept)[i] == seat_view(out@[i]));
            }
        }
        match target {
            Some(t) => {
                seat_views(kept).lemma_filter_push((t.0@, judge_id@, role_code(t.1), tournament_id@), outside_of(seq_ids));
            },
            None => {},
        }
    }
    out
}

} // verus!

verus! {

/// The tables of a tournament's draw that the draw editor reads and
/// changes.
pub struct DrawTables {
    pub rounds: Vec<Round>,
    pub debates: Vec<Debate>,
    pub judges: Vec<Judge>,
    pub judges_of_debate: Vec<DebateJudge>,
    pub teams_of_debate: Vec<DebateTeam>,
}

/// Why moving a judge was refused.
pub enum MoveJudgeError {
    JudgeNotFound,
    SourceNotFound,
    TargetNotFound,
    DifferentRoundSequences,
    NoDebateGiven,
    /// One of the two panels changed since the move was offered; the draw
    /// editor of these rounds is shown again.
    Conflict(Vec<String>),
    DebateNotFound,
    InvalidRole(String),
}

impl MoveJudgeError {
    /// The message shown for the error.
    pub fn message(&self) -> (r: String)
        ensures
            match *self {
                MoveJudgeError::JudgeNotFound => r@ == "Judge not found"@,
                MoveJudgeError::SourceNotFound => r@ == "Source debate not found"@,
                MoveJudgeError::TargetNotFound => r@ == "Target debate not found"@,
                MoveJudgeError::DifferentRoundSequences => r@
                    == "Source and target debates are not in the same round sequence"@,
                MoveJudgeError::NoDebateGiven => r@ == "No source or target debate specified"@,
                MoveJudgeError::Conflict(_) => r@ == "conflict"@,
                MoveJudgeError::DebateNotFound => r@ == "Debate not found"@,
                MoveJudgeError::InvalidRole(m) => r@ == m@,
            },
    {
        match self {
            MoveJudgeError::JudgeNotFound => String::from_str("Judge not found"),
            MoveJudgeError::SourceNotFound => String::from_str("Source debate not found"),
            MoveJudgeError::TargetNotFound => String::from_str("Target debate not found"),
            MoveJudgeError::DifferentRoundSequences => String::from_str(
                "Source and target debates are not in the same round sequence",
            ),
            MoveJudgeError::NoDebateGiven => String::from_str("No source or target debate specified"),
            MoveJudgeError::Conflict(_) => String::from_str("conflict"),
            MoveJudgeError::DebateNotFound => String::from_str("Debate not found"),
            MoveJudgeError::InvalidRole(m) => m.clone(),
        }
    }
}

/// The round sequence a move touches: that of the source and the target,
/// which must agree, or of whichever of them is given.
pub open spec fn affected_round_seq_spec(source: Option<i64>, target: Option<i64>) -> Option<i64> {
    match (source, target) {
        (Some(s), Some(t)) => if s == t {
            Some(s)
        } else {
            None
        },
        (Some(s), None) => Some(s),
        (None, Some(t)) => Some(t),
        (None, None) => None,
    }
}

/// The round sequence a move touches, given the round sequences of its
/// source and target debates.
pub fn affected_round_seq(source: Option<i64>, target: Option<i64>) -> (r: Result<i64, MoveJudgeError>)
    ensures
        match affected_round_seq_spec(source, target) {
            Some(a) => r matches Ok(x) && x == a,
            None => if source is Some && target is Some {
                r matches Err(MoveJudgeError::DifferentRoundSequences)
            } else {
                r matches Err(MoveJudgeError::NoDebateGiven)
            },
        },
{
    match (source, target) {
        (Some(s), Some(t)) => if s == t {
            Ok(s)
        } else {
            Err(MoveJudgeError::DifferentRoundSequences)
        },
        (Some(s), None) => Ok(s),
        (None, Some(t)) => Ok(t),
        (None, None) => Err(MoveJudgeError::NoDebateGiven),
    }
}

/// Whether a debate has the given identifier and belongs to the given
/// tournament.
pub open spec fn debate_of_tournament(id: Seq<char>, tournament_id: Seq<char>) -> spec_fn(Debate) -> bool {
    |d: Debate| d.id@ == id && d.tournament_id@ == tournament_id
}

/// Whether a round has the given identifier.
pub open spec fn round_has_id(id: Seq<char>) -> spec_fn(Round) -> bool {
    |r: Round| r.id@ == id
}

/// The round sequence of a debate of the tournament: the sequence number
/// of its round.
pub open spec fn debate_round_seq_spec(t: DrawTables, debate_id: Seq<char>, tournament_id: Seq<char>) -> Option<i64> {
    match first_match(t.debates@, debate_of_tournament(debate_id, tournament_id)) {
        Some(d) => match first_match(t.rounds@, round_has_id(d.round_id@)) {
            Some(r) => Some(r.seq),
            None => None,
        },
        None => None,
    }
}

/// The first debate of the tournament with the given identifier.
fn find_debate<'a>(debates: &'a Vec<Debate>, id: &str, tournament_id: &str) -> (r: Option<&'a Debate>)
    ensures
        match first_match(debates@, debate_of_tournament(id@, tournament_id@)) {
            Some(d) => r matches Some(x) && *x == d,
            None => r is None,
        },
{
    let mut k: usize = 0;
    while k < debates.len()
        invariant
            k <= debates@.len(),
            forall|m: int| 0 <= m < k ==> !debate_of_tournament(id@, tournament_id@)(#[trigger] debates@[m]),
        decreases debates@.len() - k,
    {
        if str_eq(debates[k].id.as_str(), id) && str_eq(debates[k].tournament_id.as_str(), tournament_id) {
            proof {
                lemma_first_match_at(debates@, debate_of_tournament(id@, tournament_id@), k as int);
            }
            return Some(&debates[k]);
        }
        k = k + 1;
    }
    proof {
        lemma_first_match_at(debates@, debate_of_tournament(id@, tournament_id@), k as int);
    }
    None
}

/// The first round with the given identifier.
fn find_round<'a>(rounds: &'a Vec<Round>, id: &str) -> (r: Option<&'a Round>)
    ensures
        match first_match(rounds@, round_has_id(id@)) {
            Some(x) => r matches Some(y) && *y == x,
            None => r is None,
        },
{
    let mut k: usize = 0;
    while k < rounds.len()
        invariant
            k <= rounds@.len(),
            forall|m: int| 0 <= m < k ==> !round_has_id(id@)(#[trigger] rounds@[m]),
        decreases rounds@.len() - k,
    {
        if str_eq(rounds[k].id.as_str(), id) {
            proof {
                lemma_first_match_at(rounds@, round_has_id(id@), k as int);
            }
            return Some(&rounds[k]);
        }
        k = k + 1;
    }
    proof {
        lemma_first_match_at(rounds@, round_has_id(id@), k as int);
    }
    None
}

/// The round sequence of a debate of the tournament, where the debate and
/// its round are found.
pub fn debate_round_seq(tables: &DrawTables, debate_id: &str, tournament_id: &str) -> (r: Option<i64>)
    ensures
        r == debate_round_seq_spec(*tables, debate_id@, tournament_id@),
{
    match find_debate(&tables.debates, debate_id, tournament_id) {
        Some(d) => match find_round(&tables.rounds, d.round_id.as_str()) {
            Some(round) => Some(round.seq),
            None => None,
        },
        None => None,
    }
}

/// Whether a round belongs to the tournament and has the given sequence
/// number.
pub open spec fn round_in_seq(r: Round, tournament_id: Seq<char>, seq: i64) -> bool {
    r.tournament_id@ == tournament_id && r.seq == seq
}

/// The rounds of the tournament with the given sequence number.
pub open spec fn round_ids_for_seq_spec(rounds: Seq<Round>, tournament_id: Seq<char>, seq: i64) -> Seq<Seq<char>>
    decreases rounds.len(),
{
    if rounds.len() == 0 {
        seq![]
    } else {
        let rest = round_ids_for_seq_spec(rounds.drop_last(), tournament_id, seq);
        if round_in_seq(rounds.last(), tournament_id, seq) {
            rest.push(rounds.last().id@)
        } else {
            rest
        }
    }
}

/// The rounds of the tournament with the given sequence number, in order.
pub fn round_ids_for_seq(tables: &DrawTables, tournament_id: &str, round_seq: i64) -> (r: Vec<String>)
    ensures
        views(r@) == round_ids_for_seq_spec(tables.rounds@, tournament_id@, round_seq),
{
    let mut out: Vec<String> = Vec::new();
    let mut k: usize = 0;
    while k < tables.rounds.len()
        invariant
            k <= tables.rounds@.len(),
            views(out@) == round_ids_for_seq_spec(tables.rounds@.take(k as int), tournament_id@, round_seq),
        decreases tables.rounds@.len() - k,
    {
        let round = &tables.rounds[k];
        proof {
            assert(tables.rounds@.take(k as int + 1).drop_last() =~= tables.rounds@.take(k as int));
        }
        if str_eq(round.tournament_id.as_str(), tournament_id) && round.seq == round_seq {
            let ghost before = out@;
            out.push(round.id.clone());
            proof {
                assert(views(out@) =~= views(before).push(round.id@));
            }
        }
        k = k + 1;
    }
    proof {
        assert(tables.rounds@.take(tables.rounds@.len() as int) =~= tables.rounds@);
    }
    out
}

/// Whether a debate is held in a round of the tournament with the given
/// sequence number.
pub open spec fn debate_in_seq(rounds: Seq<Round>, d: Debate, tournament_id: Seq<char>, seq: i64) -> bool {
    exists|k: int| 0 <= k < rounds.len() && (#[trigger] rounds[k]).id@ == d.round_id@ && round_in_seq(rounds[k], tournament_id, seq)
}

/// The debates held in the rounds of the tournament with the given
/// sequence number.
pub open spec fn debates_in_seq_spec(rounds: Seq<Round>, debates: Seq<Debate>, tournament_id: Seq<char>, seq: i64) -> Seq<Seq<char>>
    decreases debates.len(),
{
    if debates.len() == 0 {
        seq![]
    } else {
        let rest = debates_in_seq_spec(rounds, debates.drop_last(), tournament_id, seq);
        if debate_in_seq(rounds, debates.last(), tournament_id, seq) {
            rest.push(debates.last().id@)
        } else {
            rest
        }
    }
}

/// Whether a debate is held in a round of the tournament with the given
/// sequence number.
fn debate_in_seq_exec(rounds: &Vec<Round>, d: &Debate, tournament_id: &str, round_seq: i64) -> (r: bool)
    ensures
        r == debate_in_seq(rounds@, *d, tournament_id@, round_seq),
{
    let mut k: usize = 0;
    while k < rounds.len()
        invariant
            k <= rounds@.len(),
            forall|m: int| 0 <= m < k ==> !((#[trigger] rounds@[m]).id@ == d.round_id@ && round_in_seq(rounds@[m], tournament_id@, round_seq)),
        decreases rounds@.len() - k,
    {
        if rounds[k].id == d.round_id && str_eq(rounds[k].tournament_id.as_str(), tournament_id) && rounds[k].seq == round_seq {
            return true;
        }
        k = k + 1;
    }
    false
}

/// The debates held in the rounds of the tournament with the given
/// sequence number, in order.
pub fn debates_in_seq(tables: &DrawTables, tournament_id: &str, round_seq: i64) -> (r: Vec<String>)
    ensures
        views(r@) == debates_in_seq_spec(tables.rounds@, tables.debates@, tournament_id@, round_seq),
{
    let mut out: Vec<String> = Vec::new();
    let mut k: usize = 0;
    while k < tables.debates.len()
        invariant
            k <= tables.debates@.len(),
            views(out@) == debates_in_seq_spec(tables.rounds@, tables.debates@.take(k as int), tournament_id@, round_seq),
        decreases tables.debates@.len() - k,
    {
        let d = &tables.debates[k];
        proof {
            assert(tables.debates@.take(k as int + 1).drop_last() =~= tables.debates@.take(k as int));
        }
        if debate_in_seq_exec(&tables.rounds, d, tournament_id, round_seq) {
            let ghost before = out@;
            out.push(d.id.clone());
            proof {
                assert(views(out@) =~= views(before).push(d.id@));
            }
        }
        k = k + 1;
    }
    proof {
        assert(tables.debates@.take(tables.debates@.len() as int) =~= tables.debates@);
    }
    out
}

/// Whether a seat is the given judge's at a debate of a round sequence.
pub open spec fn judge_seat_in(judge_id: Seq<char>, seq_debates: Seq<Seq<char>>) -> spec_fn(DebateJudge) -> bool {
    |r: DebateJudge| r.judge_id@ == judge_id && seq_debates.contains(r.debate_id@)
}

/// The debate of a round sequence where the judge sits (the first one).
pub fn current_debate_for_judge_in_seq(panels: &Vec<DebateJudge>, judge_id: &str, seq_debate_ids: &Vec<String>) -> (r: Option<String>)
    ensures
        match first_match(panels@, judge_seat_in(judge_id@, views(seq_debate_ids@))) {
            Some(seat) => r matches Some(d) && d@ == seat.debate_id@,
            None => r is None,
        },
{
    let mut k: usize = 0;
    while k < panels.len()
        invariant
            k <= panels@.len(),
            forall|m: int| 0 <= m < k ==> !judge_seat_in(judge_id@, views(seq_debate_ids@))(#[trigger] panels@[m]),
        decreases panels@.len() - k,
    {
        if str_eq(panels[k].judge_id.as_str(), judge_id) && contains_string(seq_debate_ids, &panels[k].debate_id) {
            proof {
                lemma_first_match_at(panels@, judge_seat_in(judge_id@, views(seq_debate_ids@)), k as int);
            }
            return Some(panels[k].debate_id.clone());
        }
        k = k + 1;
    }
    proof {
        lemma_first_match_at(panels@, judge_seat_in(judge_id@, views(seq_debate_ids@)), k as int);
    }
    None
}

/// The rows of the panel of a debate, in the order of the table.
pub open spec fn panel_rows_of(panels: Seq<DebateJudge>, debate_id: Seq<char>) -> Seq<PanelRow>
    decreases panels.len(),
{
    if panels.len() == 0 {
        seq![]
    } else {
        let rest = panel_rows_of(panels.drop_last(), debate_id);
        if panels.last().debate_id@ == debate_id {
            rest.push((panels.last().judge_id@, panels.last().status@))
        } else {
            rest
        }
    }
}

/// The snapshot of the panel of a debate, read from the table of seats.
pub fn panel_snapshot_for_debate_id(panels: &Vec<DebateJudge>, debate_id: &str) -> (r: String)
    ensures
        r@ == panel_text("debate"@, Some(debate_id@), sort_rows(panel_rows_of(panels@, debate_id@))),
{
    let mut rows: Vec<(String, String)> = Vec::new();
    let mut k: usize = 0;
    while k < panels.len()
        invariant
            k <= panels@.len(),
            row_views(rows@) == panel_rows_of(panels@.take(k as int), debate_id@),
        decreases panels@.len() - k,
    {
        proof {
            assert(panels@.take(k as int + 1).drop_last() =~= panels@.take(k as int));
        }
        if str_eq(panels[k].debate_id.as_str(), debate_id) {
            let ghost before = rows@;
            let row = (panels[k].judge_id.clone(), panels[k].status.clone());
            rows.push(row);
            proof {
                assert(row_views(rows@) =~= row_views(before).push(row_view(row)));
            }
        }
        k = k + 1;
    }
    proof {
        assert(panels@.take(panels@.len() as int) =~= panels@);
    }
    panel_snapshot("debate", Some(debate_id), rows)
}

/// The judges that sit on a panel of a round sequence, in table order.
pub open spec fn seated_judges(panels: Seq<DebateJudge>, seq_debates: Seq<Seq<char>>) -> Seq<Seq<char>>
    decreases panels.len(),
{
    if panels.len() == 0 {
        seq![]
    } else {
        let rest = seated_judges(panels.drop_last(), seq_debates);
        if seq_debates.contains(panels.last().debate_id@) {
            rest.push(panels.last().judge_id@)
        } else {
            rest
        }
    }
}

/// The rows of the judges of the tournament on no panel of the round
/// sequence, each with status "U".
pub open spec fn unallocated_seq_rows(
    judges: Seq<Judge>,
    tournament_id: Seq<char>,
    seated: Seq<Seq<char>>,
) -> Seq<PanelRow>
    decreases judges.len(),
{
    if judges.len() == 0 {
        seq![]
    } else {
        let rest = unallocated_seq_rows(judges.drop_last(), tournament_id, seated);
        let j = judges.last();
        if j.tournament_id@ == tournament_id && !seated.contains(j.id@) {
            rest.push((j.id@, "U"@))
        } else {
            rest
        }
    }
}

/// Whether some seat of the table is the given judge's at a debate of the
/// round sequence.
fn judge_seated_in(panels: &Vec<DebateJudge>, judge_id: &String, seq_debate_ids: &Vec<String>) -> (r: bool)
    ensures
        r == seated_judges(panels@, views(seq_debate_ids@)).contains(judge_id@),
{
    let mut k: usize = 0;
    let mut found = false;
    while k < panels.len()
        invariant
            k <= panels@.len(),
            found == seated_judges(panels@.take(k as int), views(seq_debate_ids@)).contains(judge_id@),
        decreases panels@.len() - k,
    {
        let ghost prefix = panels@.take(k as int);
        let ghost before = seated_judges(prefix, views(seq_debate_ids@));
        proof {
            assert(panels@.take(k as int + 1).drop_last() =~= prefix);
        }
        let in_seq = contains_string(seq_debate_ids, &panels[k].debate_id);
        let hit = panels[k].judge_id == *judge_id && in_seq;
        proof {
            if in_seq {
                assert(before.push(panels@[k as int].judge_id@).contains(judge_id@) == (before.contains(judge_id@)
                    || panels@[k as int].judge_id@ == judge_id@)) by {
                    let b2 = before.push(panels@[k as int].judge_id@);
                    if b2.contains(judge_id@) {
                        let i = choose|i: int| 0 <= i < b2.len() && b2[i] == judge_id@;
                        if i < before.len() {
                            assert(before[i] == judge_id@);
                        }
                    }
                    if before.contains(judge_id@) {
                        let i = choose|i: int| 0 <= i < before.len() && before[i] == judge_id@;
                        assert(b2[i] == judge_id@);
                    }
                    assert(b2[before.len() as int] == panels@[k as int].judge_id@);
                }
            }
        }
        found = found || hit;
        k = k + 1;
    }
    proof {
        assert(panels@.take(panels@.len() as int) =~= panels@);
    }
    found
}

/// The snapshot of the judges of the tournament on no panel of the round
/// sequence.
pub fn panel_snapshot_for_unallocated(tables: &DrawTables, tournament_id: &str, seq_debate_ids: &Vec<String>) -> (r: String)
    ensures
        r@ == panel_text(
            "unallocated"@,
            None,
            sort_rows(
                unallocated_seq_rows(
                    tables.judges@,
                    tournament_id@,
                    seated_judges(tables.judges_of_debate@, views(seq_debate_ids@)),
                ),
            ),
        ),
{
    proof {
        reveal_strlit("U");
    }
    let ghost seated = seated_judges(tables.judges_of_debate@, views(seq_debate_ids@));
    let mut rows: Vec<(String, String)> = Vec::new();
    let mut k: usize = 0;
    while k < tables.judges.len()
        invariant
            k <= tables.judges@.len(),
            seated == seated_judges(tables.judges_of_debate@, views(seq_debate_ids@)),
            row_views(rows@) == unallocated_seq_rows(tables.judges@.take(k as int), tournament_id@, seated),
        decreases tables.judges@.len() - k,
    {
        let j = &tables.judges[k];
        proof {
            assert(tables.judges@.take(k as int + 1).drop_last() =~= tables.judges@.take(k as int));
        }
        if str_eq(j.tournament_id.as_str(), tournament_id) && !judge_seated_in(&tables.judges_of_debate, &j.id, seq_debate_ids) {
            let ghost before = rows@;
            let row = (j.id.clone(), String::from_str("U"));
            rows.push(row);
            proof {
                assert(row_views(rows@) =~= row_views(before).push(row_view(row)));
            }
        }
        k = k + 1;
    }
    proof {
        assert(tables.judges@.take(tables.judges@.len() as int) =~= tables.judges@);
    }
    panel_snapshot("unallocated", None, rows)
}

} // verus!

verus! {

/// A text that is given and not empty.
pub open spec fn non_empty(o: Option<Seq<char>>) -> Option<Seq<char>> {
    match o {
        Some(s) => if s.len() > 0 {
            Some(s)
        } else {
            None
        },
        None => None,
    }
}

/// A text that is given and not empty.
fn non_empty_exec(o: Option<&str>) -> (r: Option<&str>)
    ensures
        opt_view(r) == non_empty(opt_view(o)),
{
    match o {
        Some(s) => if s.unicode_len() > 0 {
            Some(s)
        } else {
            None
        },
        None => None,
    }
}

/// Whether a judge has the given identifier and belongs to the tournament.
pub open spec fn judge_of_tournament(id: Seq<char>, tournament_id: Seq<char>) -> spec_fn(Judge) -> bool {
    |j: Judge| j.id@ == id && j.tournament_id@ == tournament_id
}

/// The round sequence of an optional debate: `None` inside where the
/// debate is given and cannot be placed.
pub open spec fn seq_of(t: DrawTables, debate_id: Option<Seq<char>>, tournament_id: Seq<char>) -> Option<Option<i64>> {
    match debate_id {
        Some(id) => match debate_round_seq_spec(t, id, tournament_id) {
            Some(s) => Some(Some(s)),
            None => None,
        },
        None => Some(None),
    }
}

/// The snapshot text of a panel of a round sequence, read from the tables:
/// the debate's panel, or the unallocated judges where no debate is given.
pub open spec fn table_panel_text(
    t: DrawTables,
    tournament_id: Seq<char>,
    seq_debates: Seq<Seq<char>>,
    debate_id: Option<Seq<char>>,
) -> Seq<char> {
    match debate_id {
        Some(id) => panel_text("debate"@, Some(id), sort_rows(panel_rows_of(t.judges_of_debate@, id))),
        None => panel_text(
            "unallocated"@,
            None,
            sort_rows(unallocated_seq_rows(t.judges@, tournament_id, seated_judges(t.judges_of_debate@, seq_debates))),
        ),
    }
}

/// The key that a move between two panels must carry.
pub open spec fn change_key_text(from_panel: Seq<char>, to_panel: Seq<char>) -> Seq<char> {
    hex_text(fnv1a(vstd::utf8::encode_utf8(change_text(from_panel, to_panel))) as nat, 16)
}

/// What moving a judge gives: the new table of seats and the rounds whose
/// draw changed.
pub struct MoveJudgeOutcome {
    pub judges_of_debate: Vec<DebateJudge>,
    pub round_ids: Vec<String>,
}

/// What moving a judge gives, for every input: the judge must belong to
/// the tournament; the source and target debates, where given, must be
/// placed in rounds, and in the same round sequence, and one of them must
/// be given; the key must match the current snapshots of the judge's panel
/// and the target panel; the role must be known. Then the judge leaves the
/// panels of the round sequence and takes the target seat.
pub open spec fn move_judge_post(
    t: DrawTables,
    tournament_id: Seq<char>,
    judge_id: Seq<char>,
    from_debate_id: Option<Seq<char>>,
    to_debate_id: Option<Seq<char>>,
    role: Seq<char>,
    change_key: Option<Seq<char>>,
    r: Result<MoveJudgeOutcome, MoveJudgeError>,
) -> bool {
    let judge = first_match(t.judges@, judge_of_tournament(judge_id, tournament_id));
    let from = non_empty(from_debate_id);
    let to = non_empty(to_debate_id);
    let source_seq = seq_of(t, from, tournament_id);
    let target_seq = seq_of(t, to, tournament_id);
    if judge is None {
        r matches Err(MoveJudgeError::JudgeNotFound)
    } else if source_seq is None {
        r matches Err(MoveJudgeError::SourceNotFound)
    } else if target_seq is None {
        r matches Err(MoveJudgeError::TargetNotFound)
    } else if affected_round_seq_spec(source_seq->0, target_seq->0) is None {
        if from is Some && to is Some {
            r matches Err(MoveJudgeError::DifferentRoundSequences)
        } else {
            r matches Err(MoveJudgeError::NoDebateGiven)
        }
    } else {
        let affected = affected_round_seq_spec(source_seq->0, target_seq->0)->0;
        let round_ids = round_ids_for_seq_spec(t.rounds@, tournament_id, affected);
        let seq_debates = debates_in_seq_spec(t.rounds@, t.debates@, tournament_id, affected);
        let judge_id = judge->0.id@;
        let current = match first_match(t.judges_of_debate@, judge_seat_in(judge_id, seq_debates)) {
            Some(seat) => Some(seat.debate_id@),
            None => None,
        };
        let key = change_key_text(
            table_panel_text(t, tournament_id, seq_debates, current),
            table_panel_text(t, tournament_id, seq_debates, to),
        );
        if non_empty(change_key) != Some(key) {
            r matches Err(MoveJudgeError::Conflict(ids)) && views(ids@) == round_ids
        } else if to is Some && role_of_code(role) is None {
            r matches Err(MoveJudgeError::InvalidRole(m)) && m@ == "Invalid role: "@ + role
        } else {
            let target = match to {
                Some(d) => Some((d, role_of_code(role)->0)),
                None => None,
            };
            r matches Ok(out) && views(out.round_ids@) == round_ids && seat_views(out.judges_of_debate@)
                == seats_after_judge_move(seat_views(t.judges_of_debate@), judge_id, seq_debates, target, tournament_id)
                && ids_kept(out.judges_of_debate@, kept_seat_ids(t.judges_of_debate@, judge_id, seq_debates), to is Some)
        }
    }
}

/// The first judge of the tournament with the given identifier.
fn find_tournament_judge<'a>(judges: &'a Vec<Judge>, id: &str, tournament_id: &str) -> (r: Option<&'a Judge>)
    ensures
        match first_match(judges@, judge_of_tournament(id@, tournament_id@)) {
            Some(j) => r matches Some(x) && *x == j,
            None => r is None,
        },
{
    let mut k: usize = 0;
    while k < judges.len()
        invariant
            k <= judges@.len(),
            forall|m: int| 0 <= m < k ==> !judge_of_tournament(id@, tournament_id@)(#[trigger] judges@[m]),
        decreases judges@.len() - k,
    {
        if str_eq(judges[k].id.as_str(), id) && str_eq(judges[k].tournament_id.as_str(), tournament_id) {
            proof {
                lemma_first_match_at(judges@, judge_of_tournament(id@, tournament_id@), k as int);
            }
            return Some(&judges[k]);
        }
        k = k + 1;
    }
    proof {
        lemma_first_match_at(judges@, judge_of_tournament(id@, tournament_id@), k as int);
    }
    None
}

/// The round sequence of an optional debate; `None` where it is given and
/// cannot be placed.
fn seq_of_exec(tables: &DrawTables, debate_id: Option<&str>, tournament_id: &str) -> (r: Option<Option<i64>>)
    ensures
        r == seq_of(*tables, opt_view(debate_id), tournament_id@),
{
    match debate_id {
        Some(id) => match debate_round_seq(tables, id, tournament_id) {
            Some(s) => Some(Some(s)),
            None => None,
        },
        None => Some(None),
    }
}

/// The snapshot of a panel of a round sequence, read from the tables.
fn table_panel_snapshot(
    tables: &DrawTables,
    tournament_id: &str,
    seq_debate_ids: &Vec<String>,
    debate_id: Option<&str>,
) -> (r: String)
    ensures
        r@ == table_panel_text(*tables, tournament_id@, views(seq_debate_ids@), opt_view(debate_id)),
{
    match debate_id {
        Some(id) => panel_snapshot_for_debate_id(&tables.judges_of_debate, id),
        None => panel_snapshot_for_unallocated(tables, tournament_id, seq_debate_ids),
    }
}

/// Moves a judge in the draw editor (see `move_judge_post`): the new table
/// of seats and the rounds whose draw changed, or why the move was refused.
pub fn move_judge(
    tables: &DrawTables,
    tournament_id: &str,
    judge_id: &str,
    from_debate_id: Option<&str>,
    to_debate_id: Option<&str>,
    role: &str,
    change_key: Option<&str>,
) -> (r: Result<MoveJudgeOutcome, MoveJudgeError>)
    ensures
        move_judge_post(
            *tables,
            tournament_id@,
            judge_id@,
            opt_view(from_debate_id),
            opt_view(to_debate_id),
            role@,
            opt_view(change_key),
            r,
        ),
{
    let judge = match find_tournament_judge(&tables.judges, judge_id, tournament_id) {
        Some(j) => j,
        None => {
            return Err(MoveJudgeError::JudgeNotFound);
        },
    };
    let from = non_empty_exec(from_debate_id);
    let to = non_empty_exec(to_debate_id);
    let source_seq = match seq_of_exec(tables, from, tournament_id) {
        Some(s) => s,
        None => {
            return Err(MoveJudgeError::SourceNotFound);
        },
    };
    let target_seq = match seq_of_exec(tables, to, tournament_id) {
        Some(s) => s,
        None => {
            return Err(MoveJudgeError::TargetNotFound);
        },
    };
    let affected = match affected_round_seq(source_seq, target_seq) {
        Ok(a) => a,
        Err(e) => {
            return Err(e);
        },
    };
    let round_ids = round_ids_for_seq(tables, tournament_id, affected);
    let seq_debate_ids = debates_in_seq(tables, tournament_id, affected);
    let current = current_debate_for_judge_in_seq(&tables.judges_of_debate, judge.id.as_str(), &seq_debate_ids);
    let current_ref: Option<&str> = match &current {
        Some(c) => Some(c.as_str()),
        None => None,
    };
    let source_panel = table_panel_snapshot(tables, tournament_id, &seq_debate_ids, current_ref);
    let target_panel = table_panel_snapshot(tables, tournament_id, &seq_debate_ids, to);
    let key = panel_change_key(source_panel.as_str(), target_panel.as_str());
    let key_matches = match non_empty_exec(change_key) {
        Some(k) => str_eq(k, key.as_str()),
        None => false,
    };
    if !key_matches {
        return Err(MoveJudgeError::Conflict(round_ids));
    }
    let target: Option<(String, Role)> = match to {
        Some(d) => match Role::of_str(role) {
            Ok(parsed) => Some((String::from_str(d), parsed)),
            Err(m) => {
                return Err(MoveJudgeError::InvalidRole(m));
            },
        },
        None => None,
    };
    let target_ref: Option<(&String, Role)> = match &target {
        Some((d, parsed)) => Some((d, *parsed)),
        None => None,
    };
    let judges_of_debate = apply_judge_move(
        &tables.judges_of_debate,
        &judge.id,
        &seq_debate_ids,
        target_ref,
        &String::from_str(tournament_id),
    );
    Ok(MoveJudgeOutcome { judges_of_debate, round_ids })
}

} // verus!

verus! {

/// Why moving a room was refused.
pub enum MoveRoomError {
    NoRounds,
    RoomNotFound,
    DebateNotFound,
}

impl MoveRoomError {
    /// The message shown for the error.
    pub fn message(&self) -> (r: String)
        ensures
            match *self {
                MoveRoomError::NoRounds => r@ == "No rounds specified"@,
                MoveRoomError::RoomNotFound => r@ == "Room not found"@,
                MoveRoomError::DebateNotFound => r@ == "Debate not found"@,
            },
    {
        match self {
            MoveRoomError::NoRounds => String::from_str("No rounds specified"),
            MoveRoomError::RoomNotFound => String::from_str("Room not found"),
            MoveRoomError::DebateNotFound => String::from_str("Debate not found"),
        }
    }
}

/// Whether a debate belongs to the tournament and to one of the rounds.
pub open spec fn debate_in_rounds(d: Debate, tournament_id: Seq<char>, round_ids: Seq<Seq<char>>) -> bool {
    d.tournament_id@ == tournament_id && round_ids.contains(d.round_id@)
}

/// The view of an optional string.
pub open spec fn opt_string_view(o: Option<String>) -> Option<Seq<char>> {
    match o {
        Some(s) => Some(s@),
        None => None,
    }
}

/// Whether a debate of the rounds is held in the room.
pub open spec fn holds_room(tournament_id: Seq<char>, round_ids: Seq<Seq<char>>, room: Seq<char>) -> spec_fn(Debate) -> bool {
    |d: Debate| debate_in_rounds(d, tournament_id, round_ids) && opt_string_view(d.room_id) == Some(room)
}

/// Whether a debate of the rounds has the given identifier.
pub open spec fn debate_of_rounds(tournament_id: Seq<char>, round_ids: Seq<Seq<char>>, id: Seq<char>) -> spec_fn(Debate) -> bool {
    |d: Debate| debate_in_rounds(d, tournament_id, round_ids) && d.id@ == id
}

/// The room of a debate after a room is moved: the room leaves every
/// debate of the rounds that held it; the debate it leaves (`source`)
/// takes the room that the target held, where that is another room; and
/// the target takes the room.
pub open spec fn room_after_move(
    d: Debate,
    tournament_id: Seq<char>,
    round_ids: Seq<Seq<char>>,
    room: Seq<char>,
    source: Option<Seq<char>>,
    target: Option<Seq<char>>,
    displaced: Option<Seq<char>>,
) -> Option<Seq<char>> {
    let cleared = if holds_room(tournament_id, round_ids, room)(d) {
        None
    } else {
        opt_string_view(d.room_id)
    };
    let swapped = if source == Some(d.id@) && displaced is Some && displaced != Some(room) {
        displaced
    } else {
        cleared
    };
    if target == Some(d.id@) {
        Some(room)
    } else {
        swapped
    }
}

/// Whether two debates agree but for their rooms.
pub open spec fn same_but_room(a: Debate, b: Debate) -> bool {
    &&& a.id == b.id
    &&& a.tournament_id == b.tournament_id
    &&& a.round_id == b.round_id
    &&& a.number == b.number
    &&& a.status == b.status
}

/// Whether the debates are those given, each with its room after a move.
pub open spec fn rooms_moved(
    old: Seq<Debate>,
    new: Seq<Debate>,
    tournament_id: Seq<char>,
    round_ids: Seq<Seq<char>>,
    room: Seq<char>,
    source: Option<Seq<char>>,
    target: Option<Seq<char>>,
    displaced: Option<Seq<char>>,
) -> bool {
    &&& new.len() == old.len()
    &&& forall|i: int|
        0 <= i < old.len() ==> same_but_room(#[trigger] new[i], old[i]) && opt_string_view(new[i].room_id)
            == room_after_move(old[i], tournament_id, round_ids, room, source, target, displaced)
}

/// What moving a room gives, for every input.
pub open spec fn move_room_post(
    t: DrawTables,
    rooms: Seq<Room>,
    tournament_id: Seq<char>,
    room_id: Seq<char>,
    to_debate_id: Option<Seq<char>>,
    round_ids: Seq<Seq<char>>,
    r: Result<Vec<Debate>, MoveRoomError>,
) -> bool {
    let room = first_match(rooms, |x: Room| x.id@ == room_id && x.tournament_id@ == tournament_id);
    let to = non_empty(to_debate_id);
    if round_ids.len() == 0 {
        r matches Err(MoveRoomError::NoRounds)
    } else if room is None {
        r matches Err(MoveRoomError::RoomNotFound)
    } else {
        let room = room->0.id@;
        let source = first_match(t.debates@, holds_room(tournament_id, round_ids, room));
        let target = match to {
            Some(id) => first_match(t.debates@, debate_of_rounds(tournament_id, round_ids, id)),
            None => None,
        };
        if to is Some && target is None {
            r matches Err(MoveRoomError::DebateNotFound)
        } else if source is None && target is None {
            r matches Err(MoveRoomError::DebateNotFound)
        } else if source is Some && to == Some(source->0.id@) {
            r matches Ok(ds) && ds@ == t.debates@
        } else {
            let source_id = match source {
                Some(s) => Some(s.id@),
                None => None,
            };
            let displaced = match target {
                Some(d) => opt_string_view(d.room_id),
                None => None,
            };
            r matches Ok(ds) && rooms_moved(t.debates@, ds@, tournament_id, round_ids, room, source_id, to, displaced)
        }
    }
}

fn find_room<'a>(rooms: &'a Vec<Room>, id: &str, tournament_id: &str) -> (r: Option<&'a Room>)
    ensures
        match first_match(rooms@, |x: Room| x.id@ == id@ && x.tournament_id@ == tournament_id@) {
            Some(x) => r matches Some(y) && *y == x,
            None => r is None,
        },
{
    let ghost p = |x: Room| x.id@ == id@ && x.tournament_id@ == tournament_id@;
    let mut k: usize = 0;
    while k < rooms.len()
        invariant
            k <= rooms@.len(),
            p == (|x: Room| x.id@ == id@ && x.tournament_id@ == tournament_id@),
            forall|m: int| 0 <= m < k ==> !p(#[trigger] rooms@[m]),
        decreases rooms@.len() - k,
    {
        if str_eq(rooms[k].id.as_str(), id) && str_eq(rooms[k].tournament_id.as_str(), tournament_id) {
            proof {
                lemma_first_match_at(rooms@, p, k as int);
            }
            return Some(&rooms[k]);
        }
        k = k + 1;
    }
    proof {
        lemma_first_match_at(rooms@, p, k as int);
    }
    None
}

/// Whether a debate belongs to the tournament and to one of the rounds.
fn debate_in_rounds_exec(d: &Debate, tournament_id: &str, round_ids: &Vec<String>) -> (r: bool)
    ensures
        r == debate_in_rounds(*d, tournament_id@, views(round_ids@)),
{
    str_eq(d.tournament_id.as_str(), tournament_id) && contains_string(round_ids, &d.round_id)
}

/// Whether an optional string holds the given text.
fn opt_is(o: &Option<String>, s: &str) -> (r: bool)
    ensures
        r == (opt_string_view(*o) == Some(s@)),
{
    match o {
        Some(x) => str_eq(x.as_str(), s),
        None => false,
    }
}

/// The first debate that satisfies `p`, as an index.
fn find_debate_index(
    debates: &Vec<Debate>,
    tournament_id: &str,
    round_ids: &Vec<String>,
    room: Option<&str>,
    id: Option<&str>,
    p: Ghost<spec_fn(Debate) -> bool>,
) -> (r: Option<usize>)
    requires
        forall|d: Debate|
            #[trigger] p@(d) == (debate_in_rounds(d, tournament_id@, views(round_ids@)) && (room matches Some(x)
                ==> opt_string_view(d.room_id) == Some(x@)) && (id matches Some(x) ==> d.id@ == x@)),
    ensures
        match first_match(debates@, p@) {
            Some(d) => r matches Some(i) && i < debates@.len() && debates@[i as int] == d,
            None => r is None,
        },
{
    let mut k: usize = 0;
    while k < debates.len()
        invariant
            k <= debates@.len(),
            forall|d: Debate|
                #[trigger] p@(d) == (debate_in_rounds(d, tournament_id@, views(round_ids@)) && (room matches Some(x)
                    ==> opt_string_view(d.room_id) == Some(x@)) && (id matches Some(x) ==> d.id@ == x@)),
            forall|m: int| 0 <= m < k ==> !p@(#[trigger] debates@[m]),
        decreases debates@.len() - k,
    {
        let d = &debates[k];
        let room_ok = match room {
            Some(x) => opt_is(&d.room_id, x),
            None => true,
        };
        let id_ok = match id {
            Some(x) => str_eq(d.id.as_str(), x),
            None => true,
        };
        if debate_in_rounds_exec(d, tournament_id, round_ids) && room_ok && id_ok {
            proof {
                assert(p@(debates@[k as int]));
                lemma_first_match_at(debates@, p@, k as int);
            }
            return Some(k);
        }
        proof {
            assert(!p@(debates@[k as int]));
        }
        k = k + 1;
    }
    proof {
        lemma_first_match_at(debates@, p@, k as int);
    }
    None
}

/// After a room is moved, no debate of the rounds is held in it but the
/// target.
pub proof fn lemma_moved_room_held_by_target_only(
    old: Seq<Debate>,
    new: Seq<Debate>,
    tournament_id: Seq<char>,
    round_ids: Seq<Seq<char>>,
    room: Seq<char>,
    source: Option<Seq<char>>,
    target: Option<Seq<char>>,
    displaced: Option<Seq<char>>,
    i: int,
)
    requires
        rooms_moved(old, new, tournament_id, round_ids, room, source, target, displaced),
        0 <= i < new.len(),
        debate_in_rounds(new[i], tournament_id, round_ids),
        opt_string_view(new[i].room_id) == Some(room),
    ensures
        target == Some(new[i].id@),
{
    assert(same_but_room(new[i], old[i]));
}

/// A copy of a debate held in another room.
fn with_room(d: &Debate, room_id: Option<String>) -> (r: Debate)
    ensures
        same_but_room(r, *d),
        r.room_id == room_id,
{
    Debate {
        id: d.id.clone(),
        tournament_id: d.tournament_id.clone(),
        round_id: d.round_id.clone(),
        room_id,
        number: d.number,
        status: d.status.clone(),
    }
}

/// Moves a room in the draw editor (see `move_room_post`): to the target
/// debate, swapping with the room the target held, or off every debate of
/// the rounds where no target is given. The new debates, or why the move
/// was refused. After a move, no debate of the rounds but the target is
/// held in the room.
pub fn move_room(
    tables: &DrawTables,
    rooms: &Vec<Room>,
    tournament_id: &str,
    room_id: &str,
    to_debate_id: Option<&str>,
    round_ids: &Vec<String>,
) -> (r: Result<Vec<Debate>, MoveRoomError>)
    ensures
        move_room_post(*tables, rooms@, tournament_id@, room_id@, opt_view(to_debate_id), views(round_ids@), r),
{
    if round_ids.len() == 0 {
        return Err(MoveRoomError::NoRounds);
    }
    let room = match find_room(rooms, room_id, tournament_id) {
        Some(x) => x,
        None => {
            return Err(MoveRoomError::RoomNotFound);
        },
    };
    let to = non_empty_exec(to_debate_id);
    let ghost rv = room.id@;
    let ghost tid = tournament_id@;
    let ghost rids = views(round_ids@);
    let source = find_debate_index(
        &tables.debates,
        tournament_id,
        round_ids,
        Some(room.id.as_str()),
        None,
        Ghost(holds_room(tid, rids, rv)),
    );
    let target = match to {
        Some(id) => {
            let found = find_debate_index(
                &tables.debates,
                tournament_id,
                round_ids,
                None,
                Some(id),
                Ghost(debate_of_rounds(tid, rids, id@)),
            );
            match found {
                Some(i) => Some(i),
                None => {
                    return Err(MoveRoomError::DebateNotFound);
                },
            }
        },
        None => None,
    };
    if source.is_none() && target.is_none() {
        return Err(MoveRoomError::DebateNotFound);
    }
    match (source, to) {
        (Some(s), Some(id)) => {
            if str_eq(tables.debates[s].id.as_str(), id) {
                let mut same: Vec<Debate> = Vec::new();
                let mut k: usize = 0;
                while k < tables.debates.len()
                    invariant
                        k <= tables.debates@.len(),
                        same@ == tables.debates@.take(k as int),
                    decreases tables.debates@.len() - k,
                {
                    same.push(tables.debates[k].clone());
                    proof {
                        assert(tables.debates@.take(k as int + 1) =~= tables.debates@.take(k as int).push(
                            tables.debates@[k as int],
                        ));
                    }
                    k = k + 1;
                }
                proof {
                    assert(tables.debates@.take(tables.debates@.len() as int) =~= tables.debates@);
                }
                return Ok(same);
            }
        },
        _ => {},
    }
    let source_id: Option<String> = match source {
        Some(s) => Some(tables.debates[s].id.clone()),
        None => None,
    };
    let displaced: Option<String> = match target {
        Some(t) => match &tables.debates[t].room_id {
            Some(x) => Some(x.clone()),
            None => None,
        },
        None => None,
    };
    let ghost source_v = opt_string_view(source_id);
    let ghost displaced_v = opt_string_view(displaced);
    let ghost to_v = opt_view(to);
    let mut out: Vec<Debate> = Vec::new();
    let mut k: usize = 0;
    while k < tables.debates.len()
        invariant
            k <= tables.debates@.len(),
            out@.len() == k,
            rv == room.id@,
            forall|i: int|
                0 <= i < k ==> same_but_room(#[trigger] out@[i], tables.debates@[i]) && opt_string_view(
                    out@[i].room_id,
                ) == room_after_move(tables.debates@[i], tid, rids, rv, source_v, to_v, displaced_v),
            tid == tournament_id@,
            rids == views(round_ids@),
            source_v == opt_string_view(source_id),
            displaced_v == opt_string_view(displaced),
            to_v == opt_view(to),
        decreases tables.debates@.len() - k,
    {
        let d = &tables.debates[k];
        let is_target = match to {
            Some(id) => str_eq(d.id.as_str(), id),
            None => false,
        };
        let new_room: Option<String> = if is_target {
            Some(room.id.clone())
        } else {
            let is_source = match &source_id {
                Some(s) => *s == d.id,
                None => false,
            };
            let swap = match &displaced {
                Some(x) => is_source && *x != room.id,
                None => false,
            };
            if swap {
                match &displaced {
                    Some(x) => Some(x.clone()),
                    None => None,
                }
            } else if debate_in_rounds_exec(d, tournament_id, round_ids) && opt_is(&d.room_id, room.id.as_str()) {
                None
            } else {
                match &d.room_id {
                    Some(x) => Some(x.clone()),
                    None => None,
                }
            }
        };
        out.push(with_room(d, new_room));
        k = k + 1;
    }
    Ok(out)
}

} // verus!

verus! {

/// The debates of the rounds (of any tournament).
pub open spec fn debate_ids_of_rounds(debates: Seq<Debate>, round_ids: Seq<Seq<char>>) -> Seq<Seq<char>>
    decreases debates.len(),
{
    if debates.len() == 0 {
        seq![]
    } else {
        let rest = debate_ids_of_rounds(debates.drop_last(), round_ids);
        if round_ids.contains(debates.last().round_id@) {
            rest.push(debates.last().id@)
        } else {
            rest
        }
    }
}

/// The debates of the rounds, in order.
fn debate_ids_of_rounds_exec(debates: &Vec<Debate>, round_ids: &Vec<String>) -> (r: Vec<String>)
    ensures
        views(r@) == debate_ids_of_rounds(debates@, views(round_ids@)),
{
    let mut out: Vec<String> = Vec::new();
    let mut k: usize = 0;
    while k < debates.len()
        invariant
            k <= debates@.len(),
            views(out@) == debate_ids_of_rounds(debates@.take(k as int), views(round_ids@)),
        decreases debates@.len() - k,
    {
        proof {
            assert(debates@.take(k as int + 1).drop_last() =~= debates@.take(k as int));
        }
        if contains_string(round_ids, &debates[k].round_id) {
            let ghost before = out@;
            out.push(debates[k].id.clone());
            proof {
                assert(views(out@) =~= views(before).push(debates@[k as int].id@));
            }
        }
        k = k + 1;
    }
    proof {
        assert(debates@.take(debates@.len() as int) =~= debates@);
    }
    out
}

/// Whether a team position is the given team's, in the tournament, at a
/// debate of the rounds.
pub open spec fn team_row(tournament_id: Seq<char>, debate_ids: Seq<Seq<char>>, team_id: Seq<char>) -> spec_fn(DebateTeam) -> bool {
    |r: DebateTeam| r.team_id@ == team_id && r.tournament_id@ == tournament_id && debate_ids.contains(r.debate_id@)
}

/// A team position after the positions `a` and `b` are swapped: the row of
/// `a` takes the place of `b` and then the row of `b` takes the place `a`
/// had.
pub open spec fn swap_row(r: DebateTeam, a: DebateTeam, b: DebateTeam) -> DebateTeam {
    if r.id@ == b.id@ {
        DebateTeam { debate_id: a.debate_id, side: a.side, seq: a.seq, ..r }
    } else if r.id@ == a.id@ {
        DebateTeam { debate_id: b.debate_id, side: b.side, seq: b.seq, ..r }
    } else {
        r
    }
}

/// The team positions after `a` and `b` are swapped.
pub open spec fn swap_rows(rows: Seq<DebateTeam>, a: DebateTeam, b: DebateTeam) -> Seq<DebateTeam> {
    rows.map_values(|r: DebateTeam| swap_row(r, a, b))
}

/// What swapping two teams gives: the positions with the two teams'
/// places exchanged, or no change where a team is not in the draw of the
/// rounds.
pub open spec fn move_team_spec(
    rows: Seq<DebateTeam>,
    tournament_id: Seq<char>,
    debate_ids: Seq<Seq<char>>,
    team1_id: Seq<char>,
    team2_id: Seq<char>,
) -> Option<Seq<DebateTeam>> {
    match (
        first_match(rows, team_row(tournament_id, debate_ids, team1_id)),
        first_match(rows, team_row(tournament_id, debate_ids, team2_id)),
    ) {
        (Some(a), Some(b)) => Some(swap_rows(rows, a, b)),
        _ => None,
    }
}

/// The first position of a team at a debate of the rounds, as an index.
fn find_team_row(rows: &Vec<DebateTeam>, tournament_id: &str, debate_ids: &Vec<String>, team_id: &str) -> (r: Option<usize>)
    ensures
        match first_match(rows@, team_row(tournament_id@, views(debate_ids@), team_id@)) {
            Some(x) => r matches Some(i) && i < rows@.len() && rows@[i as int] == x,
            None => r is None,
        },
{
    let mut k: usize = 0;
    while k < rows.len()
        invariant
            k <= rows@.len(),
            forall|m: int| 0 <= m < k ==> !team_row(tournament_id@, views(debate_ids@), team_id@)(#[trigger] rows@[m]),
        decreases rows@.len() - k,
    {
        if str_eq(rows[k].team_id.as_str(), team_id) && str_eq(rows[k].tournament_id.as_str(), tournament_id)
            && contains_string(debate_ids, &rows[k].debate_id) {
            proof {
                lemma_first_match_at(rows@, team_row(tournament_id@, views(debate_ids@), team_id@), k as int);
            }
            return Some(k);
        }
        k = k + 1;
    }
    proof {
        lemma_first_match_at(rows@, team_row(tournament_id@, views(debate_ids@), team_id@), k as int);
    }
    None
}

/// Swaps the places of two teams in the draw of the rounds: each takes
/// the debate, side and position of the other. Refused where a team has no
/// place in the draw of the rounds.
pub fn move_team(
    tables: &DrawTables,
    tournament_id: &str,
    team1_id: &str,
    team2_id: &str,
    round_ids: &Vec<String>,
) -> (r: Result<Vec<DebateTeam>, String>)
    ensures
        match move_team_spec(
            tables.teams_of_debate@,
            tournament_id@,
            debate_ids_of_rounds(tables.debates@, views(round_ids@)),
            team1_id@,
            team2_id@,
        ) {
            Some(rows) => r matches Ok(v) && v@ == rows,
            None => r matches Err(m) && m@ == "Team not found in draw."@,
        },
{
    let debate_ids = debate_ids_of_rounds_exec(&tables.debates, round_ids);
    let rows = &tables.teams_of_debate;
    let i1 = find_team_row(rows, tournament_id, &debate_ids, team1_id);
    let i2 = find_team_row(rows, tournament_id, &debate_ids, team2_id);
    let (i1, i2) = match (i1, i2) {
        (Some(a), Some(b)) => (a, b),
        _ => {
            return Err(String::from_str("Team not found in draw."));
        },
    };
    let a = &rows[i1];
    let b = &rows[i2];
    let mut out: Vec<DebateTeam> = Vec::new();
    let mut k: usize = 0;
    while k < rows.len()
        invariant
            k <= rows@.len(),
            out@ == swap_rows(rows@, *a, *b).take(k as int),
        decreases rows@.len() - k,
    {
        let row = &rows[k];
        let moved = if row.id == b.id {
            DebateTeam {
                id: row.id.clone(),
                tournament_id: row.tournament_id.clone(),
                debate_id: a.debate_id.clone(),
                team_id: row.team_id.clone(),
                side: a.side,
                seq: a.seq,
            }
        } else if row.id == a.id {
            DebateTeam {
                id: row.id.clone(),
                tournament_id: row.tournament_id.clone(),
                debate_id: b.debate_id.clone(),
                team_id: row.team_id.clone(),
                side: b.side,
                seq: b.seq,
            }
        } else {
            row.clone()
        };
        out.push(moved);
        proof {
            assert(swap_rows(rows@, *a, *b).take(k as int + 1) =~= swap_rows(rows@, *a, *b).take(k as int).push(
                swap_row(rows@[k as int], *a, *b),
            ));
        }
        k = k + 1;
    }
    proof {
        assert(swap_rows(rows@, *a, *b).take(rows@.len() as int) =~= swap_rows(rows@, *a, *b));
    }
    Ok(out)
}

} // verus!

verus! {

/// The index of the first item that satisfies `p`.
proof fn lemma_first_match_index<T>(s: Seq<T>, p: spec_fn(T) -> bool) -> (i: int)
    requires
        first_match(s, p) is Some,
    ensures
        0 <= i < s.len(),
        p(s[i]),
        forall|j: int| 0 <= j < i ==> !p(#[trigger] s[j]),
        first_match(s, p) == Some(s[i]),
    decreases s.len(),
{
    if p(s[0]) {
        0
    } else {
        let d = s.drop_first();
        let k = lemma_first_match_index(d, p);
        assert forall|j: int| 0 <= j < k + 1 implies !p(#[trigger] s[j]) by {
            if j > 0 {
                assert(s[j] == d[j - 1]);
            }
        }
        k + 1
    }
}

/// Swapping the same two teams twice gives the draw back, where no two
/// team positions share an identifier.
pub proof fn lemma_move_team_twice(
    rows: Seq<DebateTeam>,
    tournament_id: Seq<char>,
    debate_ids: Seq<Seq<char>>,
    team1_id: Seq<char>,
    team2_id: Seq<char>,
)
    requires
        forall|i: int, j: int| 0 <= i < j < rows.len() ==> (#[trigger] rows[i]).id@ != (#[trigger] rows[j]).id@,
        move_team_spec(rows, tournament_id, debate_ids, team1_id, team2_id) is Some,
    ensures
        move_team_spec(
            move_team_spec(rows, tournament_id, debate_ids, team1_id, team2_id)->0,
            tournament_id,
            debate_ids,
            team1_id,
            team2_id,
        ) == Some(rows),
{
    let p1 = team_row(tournament_id, debate_ids, team1_id);
    let p2 = team_row(tournament_id, debate_ids, team2_id);
    let ia = lemma_first_match_index(rows, p1);
    let ib = lemma_first_match_index(rows, p2);
    let a = rows[ia];
    let b = rows[ib];
    let once = swap_rows(rows, a, b);
    assert(once == move_team_spec(rows, tournament_id, debate_ids, team1_id, team2_id)->0);
    if ia != ib {
        assert(a.id@ != b.id@) by {
            if ia < ib {
                assert(rows[ia].id@ != rows[ib].id@);
            } else {
                assert(rows[ib].id@ != rows[ia].id@);
            }
        }
    }
    assert(p1(once[ia]));
    assert forall|j: int| 0 <= j < ia implies !p1(#[trigger] once[j]) by {
        if rows[j].id@ == b.id@ {
            if j != ib {
                if j < ib {
                    assert(rows[j].id@ != rows[ib].id@);
                } else {
                    assert(rows[ib].id@ != rows[j].id@);
                }
            }
            if team1_id == team2_id {
                assert(p1 == p2);
            }
        } else if rows[j].id@ == a.id@ {
            assert(rows[j].id@ != rows[ia].id@);
        } else {
            assert(once[j] == rows[j]);
        }
    }
    lemma_first_match_at(once, p1, ia);
    assert(p2(once[ib]));
    assert forall|j: int| 0 <= j < ib implies !p2(#[trigger] once[j]) by {
        if rows[j].id@ == b.id@ {
            assert(rows[j].id@ != rows[ib].id@);
        } else if rows[j].id@ == a.id@ {
            if j != ia {
                if j < ia {
                    assert(rows[j].id@ != rows[ia].id@);
                } else {
                    assert(rows[ia].id@ != rows[j].id@);
                }
            }
            if team1_id == team2_id {
                assert(p1 == p2);
            }
        } else {
            assert(once[j] == rows[j]);
        }
    }
    lemma_first_match_at(once, p2, ib);
    let a2 = once[ia];
    let b2 = once[ib];
    let twice = swap_rows(once, a2, b2);
    assert forall|k: int| 0 <= k < rows.len() implies #[trigger] twice[k] == rows[k] by {
        if rows[k].id@ == b.id@ {
            if k != ib {
                if k < ib {
                    assert(rows[k].id@ != rows[ib].id@);
                } else {
                    assert(rows[ib].id@ != rows[k].id@);
                }
            }
        } else if rows[k].id@ == a.id@ {
            if k != ia {
                if k < ia {
                    assert(rows[k].id@ != rows[ia].id@);
                } else {
                    assert(rows[ia].id@ != rows[k].id@);
                }
            }
        }
    }
    assert(twice =~= rows);
}

} // verus!

verus! {

/// The role a code stands for, a panelist where the code is not known.
pub open spec fn role_or_panelist(code: Seq<char>) -> Role {
    match role_of_code(code) {
        Some(r) => r,
        None => Role::Panelist,
    }
}

/// Changes the role of a judge on the panel of a debate; an unknown role
/// code makes the judge a panelist. The other seats stay as they are.
pub fn change_judge_role(panels: &Vec<DebateJudge>, judge_id: &str, debate_id: &str, role: &str) -> (r: Vec<DebateJudge>)
    ensures
        r@.len() == panels@.len(),
        forall|i: int|
            0 <= i < r@.len() ==> {
                let old_seat = panels@[i];
                let new_seat = #[trigger] r@[i];
                &&& new_seat.id == old_seat.id
                &&& new_seat.tournament_id == old_seat.tournament_id
                &&& new_seat.debate_id == old_seat.debate_id
                &&& new_seat.judge_id == old_seat.judge_id
                &&& new_seat.status@ == if old_seat.judge_id@ == judge_id@ && old_seat.debate_id@ == debate_id@ {
                    role_code(role_or_panelist(role@))
                } else {
                    old_seat.status@
                }
            },
{
    let parsed = match Role::of_str(role) {
        Ok(x) => x,
        Err(_) => Role::Panelist,
    };
    let mut out: Vec<DebateJudge> = Vec::new();
    let mut k: usize = 0;
    while k < panels.len()
        invariant
            k <= panels@.len(),
            out@.len() == k,
            parsed == role_or_panelist(role@),
            forall|i: int|
                0 <= i < k ==> {
                    let old_seat = panels@[i];
                    let new_seat = #[trigger] out@[i];
                    &&& new_seat.id == old_seat.id
                    &&& new_seat.tournament_id == old_seat.tournament_id
                    &&& new_seat.debate_id == old_seat.debate_id
                    &&& new_seat.judge_id == old_seat.judge_id
                    &&& new_seat.status@ == if old_seat.judge_id@ == judge_id@ && old_seat.debate_id@ == debate_id@ {
                        role_code(role_or_panelist(role@))
                    } else {
                        old_seat.status@
                    }
                },
        decreases panels@.len() - k,
    {
        let seat = &panels[k];
        let status = if str_eq(seat.judge_id.as_str(), judge_id) && str_eq(seat.debate_id.as_str(), debate_id) {
            parsed.to_string()
        } else {
            seat.status.clone()
        };
        out.push(
            DebateJudge {
                id: seat.id.clone(),
                tournament_id: seat.tournament_id.clone(),
                debate_id: seat.debate_id.clone(),
                judge_id: seat.judge_id.clone(),
                status,
            },
        );
        k = k + 1;
    }
    out
}

/// The judges with the given number.
pub open spec fn judge_numbered(n: i64) -> spec_fn(Judge) -> bool {
    |j: Judge| j.number == n
}

/// The identifiers of the judges with the given number.
pub open spec fn numbered_judge_ids(judges: Seq<Judge>, n: i64) -> Seq<Seq<char>>
    decreases judges.len(),
{
    if judges.len() == 0 {
        seq![]
    } else {
        let rest = numbered_judge_ids(judges.drop_last(), n);
        if judges.last().number == n {
            rest.push(judges.last().id@)
        } else {
            rest
        }
    }
}

/// Whether a seat is at a debate of the given ones and held by one of the
/// given judges.
pub open spec fn seat_among(debates: Seq<Seq<char>>, judges: Seq<Seq<char>>) -> spec_fn(DebateJudge) -> bool {
    |s: DebateJudge| debates.contains(s.debate_id@) && judges.contains(s.judge_id@)
}

/// Whether a debate is of the given rounds and has the given number.
pub open spec fn numbered_debate(round_ids: Seq<Seq<char>>, n: i64) -> spec_fn(Debate) -> bool {
    |d: Debate| round_ids.contains(d.round_id@) && d.number == n
}

/// The identifiers of the seats but those of a judge at a debate, in
/// order.
pub open spec fn ids_without(rows: Seq<DebateJudge>, debate: Seq<char>, judge: Seq<char>) -> Seq<Seq<char>>
    decreases rows.len(),
{
    if rows.len() == 0 {
        seq![]
    } else {
        let rest = ids_without(rows.drop_last(), debate, judge);
        if rows.last().debate_id@ == debate && rows.last().judge_id@ == judge {
            rest
        } else {
            rest.push(rows.last().id@)
        }
    }
}

/// The seats without those of a judge at a debate.
pub open spec fn seats_without(rows: Seq<SeatView>, debate: Seq<char>, judge: Seq<char>) -> Seq<SeatView>
    decreases rows.len(),
{
    if rows.len() == 0 {
        seq![]
    } else {
        let rest = seats_without(rows.drop_last(), debate, judge);
        if rows.last().0 == debate && rows.last().1 == judge {
            rest
        } else {
            rest.push(rows.last())
        }
    }
}

/// What a command of the command bar does, for every input: the judge with
/// the number must exist, and the debate with the number where one is
/// given; then the judge's first seat among the debates of the rounds is
/// given up, and the judge takes a seat at the debate in the role.
pub open spec fn apply_move_post(
    t: DrawTables,
    judge_no: u32,
    debate_no: Option<u32>,
    role: Role,
    round_ids: Seq<Seq<char>>,
    r: Result<Vec<DebateJudge>, String>,
) -> bool {
    let judge = first_match(t.judges@, judge_numbered(judge_no as i64));
    let target = match debate_no {
        Some(n) => Some(first_match(t.debates@, numbered_debate(round_ids, n as i64))),
        None => None,
    };
    let alloc = first_match(
        t.judges_of_debate@,
        seat_among(debate_ids_of_rounds(t.debates@, round_ids), numbered_judge_ids(t.judges@, judge_no as i64)),
    );
    if judge is None {
        r matches Err(m) && m@ == "No such judge with numnber j"@ + crate::text::nat_text(judge_no as nat)
    } else if target matches Some(None) {
        r matches Err(m) && m@ == "Debate with number "@ + crate::text::nat_text(debate_no->0 as nat)
            + " does not exist."@
    } else {
        let kept = match alloc {
            Some(s) => seats_without(seat_views(t.judges_of_debate@), s.debate_id@, s.judge_id@),
            None => seat_views(t.judges_of_debate@),
        };
        let kept_ids = match alloc {
            Some(s) => ids_without(t.judges_of_debate@, s.debate_id@, s.judge_id@),
            None => seat_ids(t.judges_of_debate@),
        };
        let j = judge->0;
        r matches Ok(seats) && seat_views(seats@) == match target {
            Some(Some(d)) => kept.push((d.id@, j.id@, role_code(role), j.tournament_id@)),
            _ => kept,
        } && ids_kept(seats@, kept_ids, target matches Some(Some(_)))
    }
}

fn find_numbered_judge<'a>(judges: &'a Vec<Judge>, n: i64) -> (r: Option<&'a Judge>)
    ensures
        match first_match(judges@, judge_numbered(n)) {
            Some(j) => r matches Some(x) && *x == j,
            None => r is None,
        },
{
    let mut k: usize = 0;
    while k < judges.len()
        invariant
            k <= judges@.len(),
            forall|m: int| 0 <= m < k ==> !judge_numbered(n)(#[trigger] judges@[m]),
        decreases judges@.len() - k,
    {
        if judges[k].number == n {
            proof {
                lemma_first_match_at(judges@, judge_numbered(n), k as int);
            }
            return Some(&judges[k]);
        }
        k = k + 1;
    }
    proof {
        lemma_first_match_at(judges@, judge_numbered(n), k as int);
    }
    None
}

fn numbered_judge_ids_exec(judges: &Vec<Judge>, n: i64) -> (r: Vec<String>)
    ensures
        views(r@) == numbered_judge_ids(judges@, n),
{
    let mut out: Vec<String> = Vec::new();
    let mut k: usize = 0;
    while k < judges.len()
        invariant
            k <= judges@.len(),
            views(out@) == numbered_judge_ids(judges@.take(k as int), n),
        decreases judges@.len() - k,
    {
        proof {
            assert(judges@.take(k as int + 1).drop_last() =~= judges@.take(k as int));
        }
        if judges[k].number == n {
            let ghost before = out@;
            out.push(judges[k].id.clone());
            proof {
                assert(views(out@) =~= views(before).push(judges@[k as int].id@));
            }
        }
        k = k + 1;
    }
    proof {
        assert(judges@.take(judges@.len() as int) =~= judges@);
    }
    out
}

fn find_numbered_debate<'a>(debates: &'a Vec<Debate>, round_ids: &Vec<String>, n: i64) -> (r: Option<&'a Debate>)
    ensures
        match first_match(debates@, numbered_debate(views(round_ids@), n)) {
            Some(d) => r matches Some(x) && *x == d,
            None => r is None,
        },
{
    let mut k: usize = 0;
    while k < debates.len()
        invariant
            k <= debates@.len(),
            forall|m: int| 0 <= m < k ==> !numbered_debate(views(round_ids@), n)(#[trigger] debates@[m]),
        decreases debates@.len() - k,
    {
        if debates[k].number == n && contains_string(round_ids, &debates[k].round_id) {
            proof {
                lemma_first_match_at(debates@, numbered_debate(views(round_ids@), n), k as int);
            }
            return Some(&debates[k]);
        }
        k = k + 1;
    }
    proof {
        lemma_first_match_at(debates@, numbered_debate(views(round_ids@), n), k as int);
    }
    None
}

fn find_seat_among<'a>(panels: &'a Vec<DebateJudge>, debates: &Vec<String>, judges: &Vec<String>) -> (r: Option<&'a DebateJudge>)
    ensures
        match first_match(panels@, seat_among(views(debates@), views(judges@))) {
            Some(s) => r matches Some(x) && *x == s,
            None => r is None,
        },
{
    let mut k: usize = 0;
    while k < panels.len()
        invariant
            k <= panels@.len(),
            forall|m: int| 0 <= m < k ==> !seat_among(views(debates@), views(judges@))(#[trigger] panels@[m]),
        decreases panels@.len() - k,
    {
        if contains_string(debates, &panels[k].debate_id) && contains_string(judges, &panels[k].judge_id) {
            proof {
                lemma_first_match_at(panels@, seat_among(views(debates@), views(judges@)), k as int);
            }
            return Some(&panels[k]);
        }
        k = k + 1;
    }
    proof {
        lemma_first_match_at(panels@, seat_among(views(debates@), views(judges@)), k as int);
    }
    None
}

/// A copy of the seats.
fn clone_seats(panels: &Vec<DebateJudge>) -> (r: Vec<DebateJudge>)
    ensures
        r@ == panels@,
{
    let mut out: Vec<DebateJudge> = Vec::new();
    let mut k: usize = 0;
    while k < panels.len()
        invariant
            k <= panels@.len(),
            out@ == panels@.take(k as int),
        decreases panels@.len() - k,
    {
        out.push(panels[k].clone());
        proof {
            assert(panels@.take(k as int + 1) =~= panels@.take(k as int).push(panels@[k as int]));
        }
        k = k + 1;
    }
    proof {
        assert(panels@.take(panels@.len() as int) =~= panels@);
    }
    out
}

/// The seats without those of a judge at a debate.
fn remove_seats(panels: &Vec<DebateJudge>, debate_id: &String, judge_id: &String) -> (r: Vec<DebateJudge>)
    ensures
        seat_views(r@) == seats_without(seat_views(panels@), debate_id@, judge_id@),
        seat_ids(r@) == ids_without(panels@, debate_id@, judge_id@),
{
    let mut out: Vec<DebateJudge> = Vec::new();
    let mut k: usize = 0;
    while k < panels.len()
        invariant
            k <= panels@.len(),
            seat_views(out@) == seats_without(seat_views(panels@.take(k as int)), debate_id@, judge_id@),
            seat_ids(out@) == ids_without(panels@.take(k as int), debate_id@, judge_id@),
        decreases panels@.len() - k,
    {
        proof {
            assert(panels@.take(k as int + 1).drop_last() =~= panels@.take(k as int));
            assert(panels@.take(k as int + 1).last() == panels@[k as int]);
            assert(seat_views(panels@.take(k as int + 1)).drop_last() =~= seat_views(panels@.take(k as int)));
            assert(seat_views(panels@.take(k as int + 1)).last() == seat_view(panels@[k as int]));
        }
        if !(panels[k].debate_id == *debate_id && panels[k].judge_id == *judge_id) {
            let ghost before = out@;
            out.push(panels[k].clone());
            proof {
                assert(seat_views(out@) =~= seat_views(before).push(seat_view(panels@[k as int])));
                assert(seat_ids(out@) =~= seat_ids(before).push(panels@[k as int].id@));
            }
        }
        k = k + 1;
    }
    proof {
        assert(panels@.take(panels@.len() as int) =~= panels@);
    }
    out
}

/// Applies a command of the command bar (see `apply_move_post`): the new
/// table of seats, or why the command was refused.
pub fn apply_move(
    tables: &DrawTables,
    judge_no: u32,
    debate_no: Option<u32>,
    role: Role,
    round_ids: &Vec<String>,
) -> (r: Result<Vec<DebateJudge>, String>)
    ensures
        apply_move_post(*tables, judge_no, debate_no, role, views(round_ids@), r),
{
    let judge = match find_numbered_judge(&tables.judges, judge_no as i64) {
        Some(j) => j,
        None => {
            return Err(String::from_str("No such judge with numnber j").concat(
                crate::text::u64_to_string(judge_no as u64).as_str(),
            ));
        },
    };
    let rounds_debates = debate_ids_of_rounds_exec(&tables.debates, round_ids);
    let numbered = numbered_judge_ids_exec(&tables.judges, judge_no as i64);
    let existing = find_seat_among(&tables.judges_of_debate, &rounds_debates, &numbered);
    let target: Option<&Debate> = match debate_no {
        Some(n) => match find_numbered_debate(&tables.debates, round_ids, n as i64) {
            Some(d) => Some(d),
            None => {
                return Err(String::from_str("Debate with number ").concat(
                    crate::text::u64_to_string(n as u64).as_str(),
                ).concat(" does not exist."));
            },
        },
        None => None,
    };
    let mut seats = match existing {
        Some(s) => remove_seats(&tables.judges_of_debate, &s.debate_id, &s.judge_id),
        None => clone_seats(&tables.judges_of_debate),
    };
    let ghost kept = seat_views(seats@);
    let ghost before_new = seats@;
    match target {
        Some(d) => {
            seats.push(
                DebateJudge {
                    id: crate::aggregate::new_id(),
                    debate_id: d.id.clone(),
                    judge_id: judge.id.clone(),
                    status: role.to_string(),
                    tournament_id: judge.tournament_id.clone(),
                },
            );
            proof {
                assert(seat_views(seats@) =~= kept.push((d.id@, judge.id@, role_code(role), judge.tournament_id@)));
                assert(seat_ids(seats@).drop_last() =~= seat_ids(before_new));
            }
        },
        None => {},
    }
    Ok(seats)
}

} // verus!

verus! {

/// The rounds named by the `rounds` parameter of an address: identifiers
/// separated by commas, trimmed of white space, empty ones left out.
pub fn round_ids_of_query(rounds: Option<&str>) -> (r: Vec<String>)
    ensures
        views(r@) == crate::text::comma_list(
            match rounds {
                Some(s) => s@,
                None => ""@,
            },
        ),
{
    match rounds {
        Some(s) => crate::text::comma_separated(s),
        None => crate::text::comma_separated(""),
    }
}

/// The identifiers joined by commas.
pub open spec fn comma_joined(ids: Seq<Seq<char>>) -> Seq<char>
    decreases ids.len(),
{
    if ids.len() == 0 {
        seq![]
    } else if ids.len() == 1 {
        ids[0]
    } else {
        comma_joined(ids.drop_last()) + ","@ + ids.last()
    }
}

/// Where the command bar sends the user after a command: the draw editor
/// of the rounds, named in one parameter separated by commas.
pub fn submit_cmd_redirect(tournament_id: &str, round_ids: &Vec<String>) -> (r: String)
    ensures
        r@ == "/tournaments/"@ + tournament_id@ + "/rounds/draws/edit?rounds="@ + comma_joined(views(round_ids@)),
{
    let mut joined = String::new();
    let mut i: usize = 0;
    while i < round_ids.len()
        invariant
            i <= round_ids@.len(),
            joined@ == comma_joined(views(round_ids@.take(i as int))),
        decreases round_ids@.len() - i,
    {
        proof {
            assert(views(round_ids@.take(i as int + 1)).drop_last() =~= views(round_ids@.take(i as int)));
            assert(views(round_ids@.take(i as int + 1)).last() == round_ids@[i as int]@);
        }
        if i == 0 {
            joined = round_ids[i].clone();
            proof {
                assert(views(round_ids@.take(1))[0] == round_ids@[0]@);
            }
        } else {
            joined = joined.concat(",").concat(round_ids[i].as_str());
        }
        i = i + 1;
    }
    proof {
        assert(round_ids@.take(round_ids@.len() as int) =~= round_ids@);
    }
    String::from_str("/tournaments/").concat(tournament_id).concat("/rounds/draws/edit?rounds=").concat(joined.as_str())
}

/// The message of a command that was applied or refused: nothing where it
/// was applied, else the reason after "Error evaluating command: ".
pub fn submit_cmd_message(result: &Result<Vec<DebateJudge>, String>) -> (r: Option<String>)
    ensures
        match result {
            Ok(_) => r is None,
            Err(e) => r matches Some(m) && m@ == "Error evaluating command: "@ + e@,
        },
{
    match result {
        Ok(_) => None,
        Err(e) => Some(String::from_str("Error evaluating command: ").concat(e.as_str())),
    }
}

} // verus!

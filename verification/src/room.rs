//! The per-room game engine: lobby and team assembly, the transition into
//! play, turn rotation, per-team time accounting, round lifecycle, and the
//! record of the latest interactive prompt.

use vstd::prelude::*;

use crate::digits::{dec_str, u64_to_string};
use crate::rng::{random_below, shuffle};
use crate::words::{Word, WordCatalog};

verus! {

/// Seconds to wait after a word is shown before a skip control is offered.
pub const SKIP_COOL_DOWN_IN_SECONDS: usize = 10;

/// Identifier of one room; the join code that players type.
#[derive(Clone, Copy, PartialEq, Eq, Hash, Debug, Structural)]
pub struct RoomId(pub u32);

/// Draws a fresh five-digit room identifier.
pub fn get_new_id() -> (r: RoomId)
    ensures
        10_000 <= r.0 <= 99_999,
{
    let offset = random_below(90_000);
    RoomId(10_000 + (offset as u32))
}

/// One participant, as the messaging side reports it.  Identity is the
/// numeric identifier; the display name is carried along for status texts.
pub struct Player {
    pub id: u64,
    pub full_name: String,
}

impl Clone for Player {
    fn clone(&self) -> (r: Self)
        ensures
            r == *self,
    {
        Player { id: self.id, full_name: self.full_name.clone() }
    }
}

/// Every way a state-machine operation can refuse a caller.
#[derive(Clone, Copy, PartialEq, Eq, Structural, Debug)]
pub enum GameLogicError {
    AlreadyJoined,
    NotJoinedToRoom,
    JoinAfterPlay,
    TeamChangeAfterPlay,
    AlreadyPlaying,
    NotBalancedTeams,
    IsNotPlaying,
}

/// The display label of team `t`.
pub open spec fn team_label(t: int) -> Seq<char> {
    if t == 0 {
        "Team 🔵"@
    } else if t == 1 {
        "Team 🟡"@
    } else if t == 2 {
        "Team 🔴"@
    } else if t == 3 {
        "Team 🟠"@
    } else if t == 4 {
        "Team 🟢"@
    } else if t == 5 {
        "Team 🟣"@
    } else {
        "Team 🟤"@
    }
}

/// The display label of team `team_id`, at most seven teams.
pub fn get_team_emoji(team_id: usize) -> (r: String)
    requires
        team_id < 7,
    ensures
        r@ == team_label(team_id as int),
{
    let label = if team_id == 0 {
        "Team 🔵"
    } else if team_id == 1 {
        "Team 🟡"
    } else if team_id == 2 {
        "Team 🔴"
    } else if team_id == 3 {
        "Team 🟠"
    } else if team_id == 4 {
        "Team 🟢"
    } else if team_id == 5 {
        "Team 🟣"
    } else {
        "Team 🟤"
    };
    String::from_str(label)
}

/// The labels of the first `number_of_teams` teams, in order.
pub fn get_teams(number_of_teams: usize) -> (r: Vec<String>)
    requires
        number_of_teams <= 7,
    ensures
        r@.len() == number_of_teams,
        forall|t: int| 0 <= t < number_of_teams ==> (#[trigger] r@[t])@ == team_label(t),
{
    let mut labels: Vec<String> = Vec::new();
    let mut t: usize = 0;
    while t < number_of_teams
        invariant
            t <= number_of_teams <= 7,
            labels@.len() == t,
            forall|i: int| 0 <= i < t ==> (#[trigger] labels@[i])@ == team_label(i),
        decreases number_of_teams - t,
    {
        labels.push(get_team_emoji(t));
        t += 1;
    }
    labels
}

/// The sequence of identifiers of a roster, in roster order.
pub open spec fn ids_of(players: Seq<Player>) -> Seq<u64> {
    players.map_values(|p: Player| p.id)
}

/// First-match lookup of a display name in a roster.
pub open spec fn lookup_name(players: Seq<Player>, id: u64) -> Seq<char>
    decreases players.len(),
{
    if players.len() == 0 {
        Seq::empty()
    } else if players[0].id == id {
        players[0].full_name@
    } else {
        lookup_name(players.drop_first(), id)
    }
}

/// `team` with every occurrence of `id` taken out, order kept.
pub open spec fn remove_member(team: Seq<u64>, id: u64) -> Seq<u64>
    decreases team.len(),
{
    if team.len() == 0 {
        Seq::empty()
    } else {
        let rest = remove_member(team.drop_last(), id);
        if team.last() == id {
            rest
        } else {
            rest.push(team.last())
        }
    }
}

/// The team sets after `id` picks team `ti`: the identifier leaves every
/// team set and enters the chosen one at the end.
pub open spec fn assign_team(tv: Seq<Seq<u64>>, id: u64, ti: int) -> Seq<Seq<u64>> {
    Seq::new(
        tv.len(),
        |t: int|
            if t == ti {
                remove_member(tv[t], id).push(id)
            } else {
                remove_member(tv[t], id)
            },
    )
}

/// Well-formedness of the team member sets against a roster: each set is
/// duplicate-free, every member has joined, and no identifier sits in two
/// sets.
pub open spec fn member_sets_wf(tv: Seq<Seq<u64>>, ids: Seq<u64>) -> bool {
    &&& forall|t: int| 0 <= t < tv.len() ==> (#[trigger] tv[t]).no_duplicates()
    &&& forall|t: int, i: int|
        0 <= t < tv.len() && 0 <= i < tv[t].len() ==> ids.contains(#[trigger] tv[t][i])
    &&& forall|id: u64, t1: int, t2: int|
        0 <= t1 < tv.len() && 0 <= t2 < tv.len() && #[trigger] tv[t1].contains(id)
            && #[trigger] tv[t2].contains(id) ==> t1 == t2
}

proof fn lemma_remove_member(team: Seq<u64>, id: u64)
    ensures
        forall|m: u64| #[trigger] remove_member(team, id).contains(m) <==> (team.contains(m) && m
            != id),
        team.no_duplicates() ==> remove_member(team, id).no_duplicates(),
        !team.contains(id) ==> remove_member(team, id) == team,
    decreases team.len(),
{
    broadcast use vstd::seq_lib::group_seq_properties;

    let out = remove_member(team, id);
    if team.len() == 0 {
        assert(forall|m: u64| !(#[trigger] out.contains(m)));
    } else {
        let head = team.drop_last();
        let last = team.last();
        lemma_remove_member(head, id);
        let rest = remove_member(head, id);
        assert(head.push(last) =~= team);
        assert forall|m: u64| #[trigger] out.contains(m) implies (team.contains(m) && m != id) by {
            if last == id {
                assert(head.contains(m));
            } else {
                assert(rest.push(last).contains(m));
                if m != last {
                    let j = choose|j: int| 0 <= j < rest.push(last).len() && rest.push(last)[j]
                        == m;
                    assert(rest[j] == m);
                    assert(head.contains(m));
                }
            }
        }
        assert forall|m: u64| (team.contains(m) && m != id) implies #[trigger] out.contains(m) by {
            let j = choose|j: int| 0 <= j < team.len() && team[j] == m;
            if j < team.len() - 1 {
                assert(head[j] == m);
                assert(rest.contains(m));
                if last != id {
                    let k = choose|k: int| 0 <= k < rest.len() && rest[k] == m;
                    assert(rest.push(last)[k] == m);
                }
            } else {
                assert(m == last);
                assert(rest.push(last).last() == m);
            }
        }
        if team.no_duplicates() {
            assert(head.no_duplicates()) by {
                assert forall|a: int, b: int| 0 <= a < b < head.len() implies head[a] != head[b] by {
                    assert(team[a] == head[a] && team[b] == head[b]);
                }
            }
            if last != id {
                assert(!rest.contains(last)) by {
                    if rest.contains(last) {
                        assert(head.contains(last));
                        let j = choose|j: int| 0 <= j < head.len() && head[j] == last;
                        assert(team[j] == team[team.len() - 1]);
                    }
                }
                vstd::seq_lib::lemma_no_dup_in_concat(rest, seq![last]);
                assert(rest.push(last) =~= rest + seq![last]);
            }
        }
        if !team.contains(id) {
            assert(!head.contains(id)) by {
                if head.contains(id) {
                    let j = choose|j: int| 0 <= j < head.len() && head[j] == id;
                    assert(team[j] == id);
                }
            }
            assert(last != id) by {
                assert(team[team.len() - 1] == last);
            }
            assert(out =~= team);
        }
    }
}

proof fn lemma_member_sets_wf_grow(tv: Seq<Seq<u64>>, ids: Seq<u64>, grown: Seq<u64>)
    requires
        member_sets_wf(tv, ids),
        forall|id: u64| ids.contains(id) ==> grown.contains(id),
    ensures
        member_sets_wf(tv, grown),
{
    assert forall|t: int, i: int| 0 <= t < tv.len() && 0 <= i < tv[t].len() implies grown.contains(
        #[trigger] tv[t][i],
    ) by {
        assert(ids.contains(tv[t][i]));
    }
}

/// A room before the game starts: the roster and the team assembly.
pub struct NewRoom {
    pub players: Vec<Player>,
    pub number_of_teams: usize,
    pub number_of_rounds: usize,
    pub round_duration: usize,
    pub use_taboo_words: bool,
    pub teams: Vec<Vec<u64>>,
}

impl NewRoom {
    /// The team member sets, as sequences of identifiers.
    pub open spec fn teams_view(self) -> Seq<Seq<u64>> {
        self.teams@.map_values(|v: Vec<u64>| v@)
    }

    /// The members of team `t`, in the order they picked it.
    pub open spec fn team_seq(self, t: int) -> Seq<u64> {
        self.teams_view()[t]
    }

    /// Has this identifier joined the room?
    pub open spec fn joined(self, id: u64) -> bool {
        ids_of(self.players@).contains(id)
    }

    /// Is this identifier currently a member of team `t`?
    pub open spec fn in_team(self, id: u64, t: int) -> bool {
        self.team_seq(t).contains(id)
    }

    /// Well-formedness: the configuration is within its bounds, there is
    /// one member set per team, roster identifiers are unique, and every
    /// team member is a joined player who sits in no other team.
    pub open spec fn wf(self) -> bool {
        &&& self.teams@.len() == self.number_of_teams
        &&& 2 <= self.number_of_teams <= 7
        &&& 1 <= self.number_of_rounds <= 7
        &&& 1 <= self.round_duration <= 10
        &&& ids_of(self.players@).no_duplicates()
        &&& member_sets_wf(self.teams_view(), ids_of(self.players@))
    }

    fn new(
        number_of_teams: usize,
        number_of_rounds: usize,
        round_duration: usize,
        use_taboo_words: bool,
    ) -> (r: Self)
        requires
            2 <= number_of_teams <= 7,
            1 <= number_of_rounds <= 7,
            1 <= round_duration <= 10,
        ensures
            r.wf(),
            r.players@.len() == 0,
            r.teams@.len() == number_of_teams,
            forall|t: int| 0 <= t < number_of_teams ==> #[trigger] r.team_seq(t).len() == 0,
            r.number_of_teams == number_of_teams,
            r.number_of_rounds == number_of_rounds,
            r.round_duration == round_duration,
            r.use_taboo_words == use_taboo_words,
    {
        let mut teams: Vec<Vec<u64>> = Vec::new();
        let mut t: usize = 0;
        while t < number_of_teams
            invariant
                t <= number_of_teams,
                teams@.len() == t,
                forall|i: int| 0 <= i < t ==> (#[trigger] teams@[i])@.len() == 0,
            decreases number_of_teams - t,
        {
            teams.push(Vec::new());
            t += 1;
        }
        let r = NewRoom {
            players: Vec::new(),
            teams,
            number_of_teams,
            number_of_rounds,
            round_duration,
            use_taboo_words,
        };
        proof {
            assert(forall|t: int|
                0 <= t < number_of_teams ==> #[trigger] r.team_seq(t).len() == 0);
        }
        r
    }

    fn collect_ids(&self) -> (r: Vec<u64>)
        ensures
            r@ == ids_of(self.players@),
    {
        let mut out: Vec<u64> = Vec::new();
        let mut i: usize = 0;
        while i < self.players.len()
            invariant
                i <= self.players@.len(),
                out@ == ids_of(self.players@).take(i as int),
            decreases self.players@.len() - i,
        {
            out.push(self.players[i].id);
            i += 1;
        }
        proof {
            assert(ids_of(self.players@).take(self.players@.len() as int) =~= ids_of(
                self.players@,
            ));
        }
        out
    }

    /// Index of the player with this identifier, where one exists.
    fn find_player(&self, id: u64) -> (r: Option<usize>)
        ensures
            match r {
                Some(i) => i < self.players@.len() && self.players@[i as int].id == id
                    && self.joined(id),
                None => !self.joined(id),
            },
    {
        let mut i: usize = 0;
        let n = self.players.len();
        while i < n
            invariant
                i <= n == self.players@.len(),
                forall|j: int| 0 <= j < i ==> ids_of(self.players@)[j] != id,
            decreases n - i,
        {
            if self.players[i].id == id {
                proof {
                    assert(ids_of(self.players@)[i as int] == id);
                    assert(ids_of(self.players@).contains(id));
                }
                return Some(i);
            }
            i += 1;
        }
        proof {
            assert(!self.joined(id)) by {
                if ids_of(self.players@).contains(id) {
                    let j = choose|j: int|
                        0 <= j < ids_of(self.players@).len() && ids_of(self.players@)[j] == id;
                }
            }
        }
        None
    }

    fn join(&mut self, player: Player) -> (r: Result<(Vec<u64>, usize), GameLogicError>)
        requires
            old(self).wf(),
        ensures
            final(self).wf(),
            old(self).joined(player.id) ==> r == Err::<(Vec<u64>, usize), GameLogicError>(
                GameLogicError::AlreadyJoined,
            ) && *final(self) == *old(self),
            !old(self).joined(player.id) ==> {
                &&& final(self).players@ == old(self).players@.push(player)
                &&& final(self).teams@ == old(self).teams@
                &&& final(self).number_of_teams == old(self).number_of_teams
                &&& final(self).number_of_rounds == old(self).number_of_rounds
                &&& final(self).round_duration == old(self).round_duration
                &&& final(self).use_taboo_words == old(self).use_taboo_words
                &&& r matches Ok(ok) && ok.0@ == ids_of(final(self).players@) && ok.1
                    == old(self).number_of_teams
            },
    {
        if self.find_player(player.id).is_some() {
            return Err(GameLogicError::AlreadyJoined);
        }
        let ghost player_snap = player;
        self.players.push(player);
        proof {
            let s = ids_of(self.players@);
            let s0 = ids_of(old(self).players@);
            assert(s =~= s0.push(player_snap.id));
            assert forall|id: u64| s0.contains(id) implies s.contains(id) by {
                let j = choose|j: int| 0 <= j < s0.len() && s0[j] == id;
                assert(s[j] == id);
            }
            assert(s.no_duplicates()) by {
                assert forall|a: int, b: int| 0 <= a < b < s.len() implies s[a] != s[b] by {
                    if b == s.len() - 1 {
                        assert(s[a] == s0[a]);
                        if s[a] == player_snap.id {
                            assert(s0.contains(player_snap.id));
                        }
                    }
                }
            }
            lemma_member_sets_wf_grow(old(self).teams_view(), s0, s);
            assert(self.teams_view() == old(self).teams_view());
        }
        let ids = self.collect_ids();
        Ok((ids, self.number_of_teams))
    }

    fn remove_member_exec(team: &Vec<u64>, id: u64) -> (r: Vec<u64>)
        ensures
            r@ == remove_member(team@, id),
    {
        let mut out: Vec<u64> = Vec::new();
        let mut i: usize = 0;
        while i < team.len()
            invariant
                i <= team@.len(),
                out@ == remove_member(team@.take(i as int), id),
            decreases team@.len() - i,
        {
            let m = team[i];
            proof {
                let prefix = team@.take(i as int + 1);
                assert(prefix.drop_last() =~= team@.take(i as int));
                assert(prefix.last() == team@[i as int]);
            }
            if m != id {
                out.push(m);
            }
            i += 1;
        }
        proof {
            assert(team@.take(team@.len() as int) =~= team@);
        }
        out
    }

    fn join_team(&mut self, user_id: u64, team_index: usize) -> (r: Result<
        Vec<u64>,
        GameLogicError,
    >)
        requires
            old(self).wf(),
            old(self).joined(user_id) ==> team_index < old(self).teams@.len(),
        ensures
            final(self).wf(),
            !old(self).joined(user_id) ==> r == Err::<Vec<u64>, GameLogicError>(
                GameLogicError::NotJoinedToRoom,
            ) && *final(self) == *old(self),
            old(self).joined(user_id) ==> {
                &&& final(self).players@ == old(self).players@
                &&& final(self).teams_view() == assign_team(
                    old(self).teams_view(),
                    user_id,
                    team_index as int,
                )
                &&& final(self).number_of_teams == old(self).number_of_teams
                &&& final(self).number_of_rounds == old(self).number_of_rounds
                &&& final(self).round_duration == old(self).round_duration
                &&& final(self).use_taboo_words == old(self).use_taboo_words
                &&& r matches Ok(ids) && ids@ == ids_of(old(self).players@)
            },
    {
        if self.find_player(user_id).is_none() {
            return Err(GameLogicError::NotJoinedToRoom);
        }
        let ghost tv0 = self.teams_view();
        let ghost ids0 = ids_of(self.players@);
        let mut new_teams: Vec<Vec<u64>> = Vec::new();
        let mut t: usize = 0;
        let n = self.teams.len();
        while t < n
            invariant
                *self == *old(self),
                tv0 == self.teams_view(),
                n == self.teams@.len(),
                t <= n,
                team_index < n,
                new_teams@.len() == t,
                forall|u: int|
                    0 <= u < t ==> (#[trigger] new_teams@[u])@ == if u == team_index as int {
                        remove_member(tv0[u], user_id).push(user_id)
                    } else {
                        remove_member(tv0[u], user_id)
                    },
            decreases n - t,
        {
            proof {
                assert(self.teams_view()[t as int] == self.teams@[t as int]@);
            }
            let mut cleaned = Self::remove_member_exec(&self.teams[t], user_id);
            if t == team_index {
                cleaned.push(user_id);
            }
            new_teams.push(cleaned);
            t += 1;
        }
        self.teams = new_teams;
        proof {
            assert(self.teams_view() =~~= assign_team(tv0, user_id, team_index as int));
            assert(member_sets_wf(self.teams_view(), ids_of(self.players@))) by {
                lemma_assign_team_wf(tv0, ids0, user_id, team_index as int);
            }
        }
        let ids = self.collect_ids();
        Ok(ids)
    }

    /// Are the teams ready to play: every member set has exactly two members?
    pub open spec fn balanced(self) -> bool {
        forall|t: int| 0 <= t < self.teams@.len() ==> #[trigger] self.team_seq(t).len() == 2
    }

    fn check_teams_ready(&self) -> (r: Result<(), GameLogicError>)
        ensures
            r is Ok <==> self.balanced(),
            r is Err ==> r == Err::<(), GameLogicError>(GameLogicError::NotBalancedTeams),
    {
        let mut t: usize = 0;
        let n = self.teams.len();
        while t < n
            invariant
                t <= n == self.teams@.len(),
                forall|u: int| 0 <= u < t ==> #[trigger] self.team_seq(u).len() == 2,
            decreases n - t,
        {
            proof {
                assert(self.team_seq(t as int) == self.teams@[t as int]@);
            }
            if self.teams[t].len() != 2 {
                return Err(GameLogicError::NotBalancedTeams);
            }
            t += 1;
        }
        Ok(())
    }
}

proof fn lemma_assign_team_wf(tv: Seq<Seq<u64>>, ids: Seq<u64>, id: u64, ti: int)
    requires
        member_sets_wf(tv, ids),
        ids.contains(id),
        0 <= ti < tv.len(),
    ensures
        member_sets_wf(assign_team(tv, id, ti), ids),
{
    let tv2 = assign_team(tv, id, ti);
    assert forall|t: int| 0 <= t < tv2.len() implies (#[trigger] tv2[t]).no_duplicates() by {
        lemma_remove_member(tv[t], id);
        if t == ti {
            let cleaned = remove_member(tv[t], id);
            assert(!cleaned.contains(id));
            vstd::seq_lib::lemma_no_dup_in_concat(cleaned, seq![id]);
            assert(cleaned.push(id) =~= cleaned + seq![id]);
        }
    }
    assert forall|t: int, i: int| 0 <= t < tv2.len() && 0 <= i < tv2[t].len() implies ids.contains(
        #[trigger] tv2[t][i],
    ) by {
        lemma_remove_member(tv[t], id);
        let m = tv2[t][i];
        if t == ti && i == tv2[t].len() - 1 {
            assert(m == id);
        } else {
            assert(remove_member(tv[t], id).contains(m));
            assert(tv[t].contains(m));
            let j = choose|j: int| 0 <= j < tv[t].len() && tv[t][j] == m;
        }
    }
    assert forall|m: u64, t1: int, t2: int|
        0 <= t1 < tv2.len() && 0 <= t2 < tv2.len() && #[trigger] tv2[t1].contains(m)
            && #[trigger] tv2[t2].contains(m) implies t1 == t2 by {
        lemma_remove_member(tv[t1], id);
        lemma_remove_member(tv[t2], id);
        if m == id {
            if t1 != ti {
                assert(remove_member(tv[t1], id).contains(m));
            }
            if t2 != ti {
                assert(remove_member(tv[t2], id).contains(m));
            }
        } else {
            assert(tv2[t1] == if t1 == ti {
                remove_member(tv[t1], id).push(id)
            } else {
                remove_member(tv[t1], id)
            });
            if t1 == ti {
                assert(remove_member(tv[t1], id).push(id).contains(m));
                assert(remove_member(tv[t1], id).contains(m)) by {
                    let j = choose|j: int|
                        0 <= j < remove_member(tv[t1], id).push(id).len() && remove_member(
                            tv[t1],
                            id,
                        ).push(id)[j] == m;
                    assert(j < remove_member(tv[t1], id).len());
                }
            } else {
                assert(remove_member(tv[t1], id).contains(m));
            }
            if t2 == ti {
                assert(remove_member(tv[t2], id).push(id).contains(m));
                assert(remove_member(tv[t2], id).contains(m)) by {
                    let j = choose|j: int|
                        0 <= j < remove_member(tv[t2], id).push(id).len() && remove_member(
                            tv[t2],
                            id,
                        ).push(id)[j] == m;
                    assert(j < remove_member(tv[t2], id).len());
                }
            } else {
                assert(remove_member(tv[t2], id).contains(m));
            }
            assert(tv[t1].contains(m) && tv[t2].contains(m));
        }
    }
}

/// In the lobby a player identifier appears in at most one team set.
pub proof fn lemma_member_in_at_most_one_team(room: NewRoom, id: u64, t1: int, t2: int)
    requires
        room.wf(),
        0 <= t1 < room.teams@.len(),
        0 <= t2 < room.teams@.len(),
        room.in_team(id, t1),
        room.in_team(id, t2),
    ensures
        t1 == t2,
{
}

/// Picking the same team twice is a no-op on membership: the second
/// assignment leaves every team set exactly as the first left it.
pub proof fn lemma_repick_is_noop(tv: Seq<Seq<u64>>, id: u64, ti: int)
    requires
        0 <= ti < tv.len(),
    ensures
        assign_team(assign_team(tv, id, ti), id, ti) =~~= assign_team(tv, id, ti),
{
    let once = assign_team(tv, id, ti);
    let twice = assign_team(once, id, ti);
    assert forall|t: int| 0 <= t < tv.len() implies twice[t] =~= once[t] by {
        lemma_remove_member(tv[t], id);
        let cleaned = remove_member(tv[t], id);
        assert(!cleaned.contains(id));
        lemma_remove_member(cleaned, id);
        if t == ti {
            assert(once[t] == cleaned.push(id));
            assert(cleaned.push(id).drop_last() =~= cleaned);
            assert(remove_member(cleaned.push(id), id) == remove_member(cleaned, id));
            assert(remove_member(cleaned, id) == cleaned);
        } else {
            assert(once[t] == cleaned);
            assert(remove_member(once[t], id) == cleaned);
        }
    }
}


/// Milliseconds elapsed from `since` to `now`, zero when the clock ran
/// backwards.
pub open spec fn elapsed_ms(now: u64, since: u64) -> u64 {
    if now >= since {
        (now - since) as u64
    } else {
        0
    }
}

/// Saturating addition of two durations.
pub open spec fn add_sat(a: u64, b: u64) -> u64 {
    if a + b > u64::MAX {
        u64::MAX
    } else {
        (a + b) as u64
    }
}

/// The other describer/guesser role flag.
pub open spec fn flip(turn: u8) -> u8 {
    if turn == 0 {
        1
    } else {
        0
    }
}

/// One playing team: its two players, its accumulated active time, and
/// which of the two currently describes.
pub struct PlayingTeam {
    pub first: Player,
    pub second: Player,
    pub time_ms: u64,
    pub turn: u8,
    pub name: String,
}

impl PlayingTeam {
    /// The role flag is binary and the pair is two different players.
    pub open spec fn wf(self) -> bool {
        &&& self.turn <= 1
        &&& self.first.id != self.second.id
    }

    /// The member currently describing.
    pub open spec fn spec_describing(self) -> Player {
        if self.turn == 0 {
            self.first
        } else {
            self.second
        }
    }

    /// The member currently guessing.
    pub open spec fn spec_guessing(self) -> Player {
        if self.turn == 0 {
            self.second
        } else {
            self.first
        }
    }

    fn get_describing_player(&self) -> (r: Player)
        ensures
            r == self.spec_describing(),
    {
        if self.turn == 0 {
            self.first.clone()
        } else {
            self.second.clone()
        }
    }

    fn get_guessing_player(&self) -> (r: Player)
        ensures
            r == self.spec_guessing(),
    {
        if self.turn == 0 {
            self.second.clone()
        } else {
            self.first.clone()
        }
    }

    fn advance_turn(&mut self)
        ensures
            *final(self) == (PlayingTeam { turn: flip(old(self).turn), ..*old(self) }),
    {
        if self.turn == 0 {
            self.turn = 1;
        } else {
            self.turn = 0;
        }
    }

    fn update_time(&mut self, now_ms: u64, since_ms: u64)
        ensures
            *final(self) == (PlayingTeam {
                time_ms: add_sat(old(self).time_ms, elapsed_ms(now_ms, since_ms)),
                ..*old(self)
            }),
    {
        let elapsed = if now_ms >= since_ms {
            now_ms - since_ms
        } else {
            0
        };
        self.time_ms = if self.time_ms <= u64::MAX - elapsed {
            self.time_ms + elapsed
        } else {
            u64::MAX
        };
    }
}

/// The mathematical content of a playing team, for statements that hold up
/// to the random play order.
pub struct TeamInfo {
    pub first_id: u64,
    pub first_name: Seq<char>,
    pub second_id: u64,
    pub second_name: Seq<char>,
    pub time_ms: u64,
    pub turn: u8,
    pub label: Seq<char>,
}

pub open spec fn info_of(tm: PlayingTeam) -> TeamInfo {
    TeamInfo {
        first_id: tm.first.id,
        first_name: tm.first.full_name@,
        second_id: tm.second.id,
        second_name: tm.second.full_name@,
        time_ms: tm.time_ms,
        turn: tm.turn,
        label: tm.name@,
    }
}

pub open spec fn team_infos(ts: Seq<PlayingTeam>) -> Seq<TeamInfo> {
    ts.map_values(|tm: PlayingTeam| info_of(tm))
}

/// The teams a lobby forms on `start_game`, before the random play-order
/// shuffle: team `t` pairs the two members of team set `t`, clock at zero,
/// first member describing.
pub open spec fn formed_infos(lobby: NewRoom) -> Seq<TeamInfo> {
    Seq::new(
        lobby.teams@.len() as nat,
        |t: int|
            TeamInfo {
                first_id: lobby.team_seq(t)[0],
                first_name: lookup_name(lobby.players@, lobby.team_seq(t)[0]),
                second_id: lobby.team_seq(t)[1],
                second_name: lookup_name(lobby.players@, lobby.team_seq(t)[1]),
                time_ms: 0,
                turn: 0,
                label: team_label(t),
            },
    )
}

/// A room once the game has started.
pub struct PlayingRoom {
    pub teams: Vec<PlayingTeam>,
    pub turn: usize,
    pub round: usize,
    pub round_started_at: u64,
    pub message_stack: Vec<(i64, i32)>,
    pub number_of_rounds: usize,
    pub round_duration: usize,
    pub use_taboo_words: bool,
}

impl PlayingRoom {
    pub open spec fn wf(self) -> bool {
        &&& 2 <= self.teams@.len() <= 7
        &&& self.turn < self.teams@.len()
        &&& forall|t: int| 0 <= t < self.teams@.len() ==> (#[trigger] self.teams@[t]).wf()
        &&& self.round <= self.number_of_rounds
        &&& 1 <= self.number_of_rounds <= 7
        &&& 1 <= self.round_duration <= 10
    }

    /// The currently active team.
    pub open spec fn active_team(self) -> PlayingTeam {
        self.teams@[self.turn as int]
    }

    fn get_describing_player(&self) -> (r: Player)
        requires
            self.wf(),
        ensures
            r == self.active_team().spec_describing(),
    {
        self.teams[self.turn].get_describing_player()
    }

    fn get_guessing_player(&self) -> (r: Player)
        requires
            self.wf(),
        ensures
            r == self.active_team().spec_guessing(),
    {
        self.teams[self.turn].get_guessing_player()
    }
}

/// How `start_game` relates the lobby to the playing room it creates: the
/// formed teams in some random order, first team active, round zero, the
/// round clock armed at `now_ms`, an empty prompt stack, and the
/// configuration carried over.
pub open spec fn play_rel(lobby: NewRoom, p: PlayingRoom, now_ms: u64) -> bool {
    &&& p.teams@.len() == lobby.teams@.len()
    &&& team_infos(p.teams@).to_multiset() == formed_infos(lobby).to_multiset()
    &&& p.turn == 0
    &&& p.round == 0
    &&& p.round_started_at == now_ms
    &&& p.message_stack@ == Seq::<(i64, i32)>::empty()
    &&& p.number_of_rounds == lobby.number_of_rounds
    &&& p.round_duration == lobby.round_duration
    &&& p.use_taboo_words == lobby.use_taboo_words
}

fn build_playing(lobby: &NewRoom, now_ms: u64) -> (p: PlayingRoom)
    requires
        lobby.wf(),
        lobby.balanced(),
    ensures
        p.wf(),
        play_rel(*lobby, p, now_ms),
{
    let mut formed: Vec<PlayingTeam> = Vec::new();
    let mut t: usize = 0;
    let n = lobby.teams.len();
    while t < n
        invariant
            lobby.wf(),
            lobby.balanced(),
            n == lobby.teams@.len(),
            t <= n,
            formed@.len() == t,
            team_infos(formed@) == formed_infos(*lobby).take(t as int),
            forall|u: int| 0 <= u < t ==> (#[trigger] formed@[u]).wf(),
        decreases n - t,
    {
        proof {
            assert(lobby.team_seq(t as int) == lobby.teams@[t as int]@);
            assert(lobby.team_seq(t as int).len() == 2);
            assert(lobby.joined(lobby.team_seq(t as int)[0]));
            assert(lobby.joined(lobby.team_seq(t as int)[1]));
        }
        let first_id = lobby.teams[t][0];
        let second_id = lobby.teams[t][1];
        let first = match lobby.find_player(first_id) {
            Some(i) => lobby.players[i].clone(),
            None => vstd::pervasive::unreached(),
        };
        let second = match lobby.find_player(second_id) {
            Some(i) => lobby.players[i].clone(),
            None => vstd::pervasive::unreached(),
        };
        proof {
            lemma_lookup_name(lobby.players@, first_id);
            lemma_lookup_name(lobby.players@, second_id);
        }
        let tm = PlayingTeam { first, second, time_ms: 0, turn: 0, name: get_team_emoji(t) };
        formed.push(tm);
        proof {
            assert(team_infos(formed@) =~= formed_infos(*lobby).take(t as int + 1));
        }
        t += 1;
    }
    proof {
        assert(formed_infos(*lobby).take(n as int) =~= formed_infos(*lobby));
    }
    let ghost ordered = formed@;
    shuffle(&mut formed);
    proof {
        crate::seqs::lemma_map_values_multiset_eq(
            |tm: PlayingTeam| info_of(tm),
            formed@,
            ordered,
        );
        crate::seqs::lemma_same_multiset_same_members(formed@, ordered);
        assert forall|u: int| 0 <= u < formed@.len() implies (#[trigger] formed@[u]).wf() by {
            assert(formed@.contains(formed@[u]));
            assert(ordered.contains(formed@[u]));
            let j = choose|j: int| 0 <= j < ordered.len() && ordered[j] == formed@[u];
        }
    }
    PlayingRoom {
        teams: formed,
        turn: 0,
        round: 0,
        round_started_at: now_ms,
        message_stack: Vec::new(),
        number_of_rounds: lobby.number_of_rounds,
        round_duration: lobby.round_duration,
        use_taboo_words: lobby.use_taboo_words,
    }
}

/// Where roster identifiers are unique, the first-match name lookup gives
/// the name of the player with that identifier.
proof fn lemma_lookup_name(players: Seq<Player>, id: u64)
    ensures
        forall|i: int|
            0 <= i < players.len() && ids_of(players).no_duplicates() && (#[trigger] players[i]).id
                == id ==> lookup_name(players, id) == players[i].full_name@,
    decreases players.len(),
{
    if players.len() > 0 {
        let tail = players.drop_first();
        lemma_lookup_name(tail, id);
        assert forall|i: int|
            0 <= i < players.len() && ids_of(players).no_duplicates() && (#[trigger] players[i]).id
                == id implies lookup_name(players, id) == players[i].full_name@ by {
            assert(ids_of(players)[i] == players[i].id);
            if players[0].id == id {
                if i > 0 {
                    assert(ids_of(players)[0] == id && ids_of(players)[i] == id);
                    assert(false);
                }
            } else {
                assert(i > 0);
                assert(tail[i - 1] == players[i]);
                assert(ids_of(tail).no_duplicates()) by {
                    assert forall|a: int, b: int| 0 <= a < b < tail.len() implies ids_of(tail)[a]
                        != ids_of(tail)[b] by {
                        assert(ids_of(tail)[a] == tail[a].id == players[a + 1].id);
                        assert(ids_of(tail)[b] == tail[b].id == players[b + 1].id);
                        assert(ids_of(players)[a + 1] != ids_of(players)[b + 1]);
                    }
                }
                assert(lookup_name(players, id) == lookup_name(tail, id));
            }
        }
    }
}


/// Two-digit rendering of a value below one hundred.
pub open spec fn pad2(f: nat) -> Seq<char> {
    if f < 10 {
        "0"@ + dec_str(f)
    } else {
        dec_str(f)
    }
}

/// Accumulated time as seconds with two decimals, as the standings show it.
pub open spec fn time_text(ms: u64) -> Seq<char> {
    dec_str((ms / 1000) as nat) + "."@ + pad2(((ms % 1000) / 10) as nat) + "s"@
}

fn time_text_exec(ms: u64) -> (r: String)
    ensures
        r@ == time_text(ms),
{
    let mut out = u64_to_string(ms / 1000);
    out.append(".");
    let frac = (ms % 1000) / 10;
    if frac < 10 {
        out.append("0");
    }
    let frac_digits = u64_to_string(frac);
    out.append(frac_digits.as_str());
    out.append("s");
    proof {
        assert(out@ =~= time_text(ms));
    }
    out
}

/// One line of the lobby roster per team member.
pub open spec fn member_lines(players: Seq<Player>, team: Seq<u64>) -> Seq<char>
    decreases team.len(),
{
    if team.len() == 0 {
        Seq::empty()
    } else {
        member_lines(players, team.drop_last()) + "\t- "@ + lookup_name(players, team.last())
            + "\n"@
    }
}

/// The lobby roster text of the first `n` teams.
pub open spec fn lobby_status_upto(room: NewRoom, n: int) -> Seq<char>
    decreases n,
{
    if n <= 0 {
        Seq::empty()
    } else {
        lobby_status_upto(room, n - 1) + team_label(n - 1) + ":\n"@ + member_lines(
            room.players@,
            room.team_seq(n - 1),
        )
    }
}

/// The lobby roster text: each team's label and its members.
pub open spec fn lobby_status(room: NewRoom) -> Seq<char> {
    lobby_status_upto(room, room.teams@.len() as int)
}

/// One line of the standings: the team, its pair, its accumulated time,
/// marked when it leads.
pub open spec fn playing_team_line(tm: PlayingTeam, leading: bool) -> Seq<char> {
    (if leading {
        "🏆 "@
    } else {
        Seq::<char>::empty()
    }) + tm.name@ + ":\n\t- "@ + tm.first.full_name@ + "\n\t- "@ + tm.second.full_name@
        + "\n\t⏱️ "@ + time_text(tm.time_ms) + "\n\n"@
}

/// The first team with the least accumulated time: the leading team, since
/// the clock only runs on a team while it must make its teammates guess.
pub open spec fn min_time_index(teams: Seq<PlayingTeam>) -> int
    decreases teams.len(),
{
    if teams.len() <= 1 {
        0
    } else {
        let m = min_time_index(teams.drop_last());
        if teams.last().time_ms < teams[m].time_ms {
            teams.len() - 1
        } else {
            m
        }
    }
}

/// The team the standings mark as leading carries the least accumulated
/// time of all teams.
pub proof fn lemma_min_time_index(teams: Seq<PlayingTeam>)
    requires
        teams.len() > 0,
    ensures
        0 <= min_time_index(teams) < teams.len(),
        forall|t: int|
            0 <= t < teams.len() ==> teams[min_time_index(teams)].time_ms <= (
            #[trigger] teams[t]).time_ms,
    decreases teams.len(),
{
    if teams.len() > 1 {
        lemma_min_time_index(teams.drop_last());
        let m0 = min_time_index(teams.drop_last());
        assert forall|t: int|
            0 <= t < teams.len() implies teams[min_time_index(teams)].time_ms <= (
        #[trigger] teams[t]).time_ms by {
            assert(teams.drop_last()[m0] == teams[m0]);
            if t < teams.len() - 1 {
                assert(teams.drop_last()[t] == teams[t]);
                assert(teams.drop_last()[m0].time_ms <= teams.drop_last()[t].time_ms);
            }
        }
    }
}

/// The standings text of the first `n` teams, with team `lead` marked.
pub open spec fn playing_status_upto(teams: Seq<PlayingTeam>, lead: int, n: int) -> Seq<char>
    decreases n,
{
    if n <= 0 {
        Seq::empty()
    } else {
        playing_status_upto(teams, lead, n - 1) + playing_team_line(teams[n - 1], n - 1 == lead)
    }
}

/// The standings text: every team's pair and time, the leading team marked.
pub open spec fn playing_status(teams: Seq<PlayingTeam>) -> Seq<char> {
    playing_status_upto(teams, min_time_index(teams), teams.len() as int)
}

impl NewRoom {
    fn get_teams(&self) -> (r: String)
        requires
            self.wf(),
        ensures
            r@ == lobby_status(*self),
    {
        let mut out = String::new();
        let mut t: usize = 0;
        let n = self.teams.len();
        while t < n
            invariant
                self.wf(),
                n == self.teams@.len(),
                t <= n,
                out@ == lobby_status_upto(*self, t as int),
            decreases n - t,
        {
            proof {
                assert(self.team_seq(t as int) == self.teams@[t as int]@);
            }
            let label = get_team_emoji(t);
            out.append(label.as_str());
            out.append(":\n");
            let mut j: usize = 0;
            let team_len = self.teams[t].len();
            while j < team_len
                invariant
                    self.wf(),
                    t < n == self.teams@.len(),
                    team_len == self.team_seq(t as int).len(),
                    j <= team_len,
                    out@ == lobby_status_upto(*self, t as int) + team_label(t as int) + ":\n"@
                        + member_lines(self.players@, self.team_seq(t as int).take(j as int)),
                decreases team_len - j,
            {
                proof {
                    assert(self.team_seq(t as int) == self.teams@[t as int]@);
                    assert(self.joined(self.team_seq(t as int)[j as int]));
                }
                let member = self.teams[t][j];
                let member_name = match self.find_player(member) {
                    Some(i) => {
                        proof {
                            lemma_lookup_name(self.players@, member);
                        }
                        self.players[i].full_name.clone()
                    },
                    None => vstd::pervasive::unreached(),
                };
                out.append("\t- ");
                out.append(member_name.as_str());
                out.append("\n");
                proof {
                    let team = self.team_seq(t as int);
                    assert(team.take(j as int + 1).drop_last() =~= team.take(j as int));
                    assert(team.take(j as int + 1).last() == team[j as int]);
                    assert(out@ =~= lobby_status_upto(*self, t as int) + team_label(t as int)
                        + ":\n"@ + member_lines(self.players@, team.take(j as int + 1)));
                }
                j += 1;
            }
            proof {
                let team = self.team_seq(t as int);
                assert(team.take(team.len() as int) =~= team);
                assert(out@ =~= lobby_status_upto(*self, t as int + 1));
            }
            t += 1;
        }
        out
    }
}

impl PlayingRoom {
    fn min_time_team(&self) -> (r: usize)
        requires
            self.teams@.len() > 0,
        ensures
            r as int == min_time_index(self.teams@),
    {
        let mut best: usize = 0;
        let mut k: usize = 1;
        let n = self.teams.len();
        proof {
            assert(self.teams@.take(1) =~= seq![self.teams@[0]]);
        }
        while k < n
            invariant
                n == self.teams@.len(),
                1 <= k <= n,
                best < k,
                best as int == min_time_index(self.teams@.take(k as int)),
            decreases n - k,
        {
            proof {
                let upto = self.teams@.take(k as int + 1);
                assert(upto.drop_last() =~= self.teams@.take(k as int));
                assert(upto.last() == self.teams@[k as int]);
                assert(forall|t: int|
                    0 <= t < k ==> #[trigger] self.teams@.take(k as int)[t] == self.teams@[t]);
            }
            if self.teams[k].time_ms < self.teams[best].time_ms {
                best = k;
            }
            k += 1;
        }
        proof {
            assert(self.teams@.take(n as int) =~= self.teams@);
        }
        best
    }

    fn get_teams(&self) -> (r: String)
        requires
            self.teams@.len() > 0,
        ensures
            r@ == playing_status(self.teams@),
    {
        let lead = self.min_time_team();
        let mut out = String::new();
        let mut t: usize = 0;
        let n = self.teams.len();
        while t < n
            invariant
                n == self.teams@.len(),
                lead as int == min_time_index(self.teams@),
                t <= n,
                out@ == playing_status_upto(self.teams@, lead as int, t as int),
            decreases n - t,
        {
            if t == lead {
                out.append("🏆 ");
            }
            let tm = &self.teams[t];
            out.append(tm.name.as_str());
            out.append(":\n\t- ");
            out.append(tm.first.full_name.as_str());
            out.append("\n\t- ");
            out.append(tm.second.full_name.as_str());
            out.append("\n\t⏱️ ");
            let shown = time_text_exec(tm.time_ms);
            out.append(shown.as_str());
            out.append("\n\n");
            proof {
                assert(out@ =~= playing_status_upto(self.teams@, lead as int, t as int + 1));
            }
            t += 1;
        }
        out
    }

    fn next(&mut self, now_ms: u64)
        requires
            old(self).wf(),
        ensures
            self_correct_step(*old(self), *final(self), now_ms),
            final(self).wf(),
    {
        let since = self.round_started_at;
        let at = self.turn;
        let team = &mut self.teams[at];
        team.update_time(now_ms, since);
        team.advance_turn();
        self.turn = (at + 1) % self.teams.len();
        self.round_started_at = now_ms;
    }
}

/// How one correct guess advances a playing room: the active team is
/// credited with the time since the round clock last reset and flips its
/// describer, the turn passes to the next team round-robin, and the clock
/// resets to `now`.
pub open spec fn self_correct_step(pre: PlayingRoom, post: PlayingRoom, now: u64) -> bool {
    let n = pre.teams@.len() as int;
    let at = pre.turn as int;
    &&& post.teams@.len() == n
    &&& (forall|t: int| 0 <= t < n && t != at ==> post.teams@[t] == pre.teams@[t])
    &&& post.teams@[at] == (PlayingTeam {
        time_ms: add_sat(pre.teams@[at].time_ms, elapsed_ms(now, pre.round_started_at)),
        turn: flip(pre.teams@[at].turn),
        ..pre.teams@[at]
    })
    &&& post.turn as int == (at + 1) % n
    &&& post.round == pre.round
    &&& post.round_started_at == now
    &&& post.message_stack == pre.message_stack
    &&& post.number_of_rounds == pre.number_of_rounds
    &&& post.round_duration == pre.round_duration
    &&& post.use_taboo_words == pre.use_taboo_words
}

/// How the round timer advances a playing room: the active team is
/// credited, the round counter steps, and on the last round the prompt
/// stack is cleared.  A room whose rounds are already spent is left as it
/// is.
pub open spec fn stop_step(pre: PlayingRoom, post: PlayingRoom, now: u64) -> bool {
    if pre.round < pre.number_of_rounds {
        let n = pre.teams@.len() as int;
        let at = pre.turn as int;
        &&& post.teams@.len() == n
        &&& (forall|t: int| 0 <= t < n && t != at ==> post.teams@[t] == pre.teams@[t])
        &&& post.teams@[at] == (PlayingTeam {
            time_ms: add_sat(pre.teams@[at].time_ms, elapsed_ms(now, pre.round_started_at)),
            ..pre.teams@[at]
        })
        &&& post.turn == pre.turn
        &&& post.round == pre.round + 1
        &&& post.round_started_at == pre.round_started_at
        &&& post.message_stack@ == (if pre.round + 1 == pre.number_of_rounds {
            Seq::<(i64, i32)>::empty()
        } else {
            pre.message_stack@
        })
        &&& post.number_of_rounds == pre.number_of_rounds
        &&& post.round_duration == pre.round_duration
        &&& post.use_taboo_words == pre.use_taboo_words
    } else {
        post == pre
    }
}

/// A word to guess, handed to the active pair: the freshly drawn word, who
/// describes it, who guesses.
pub struct WordGuessTry {
    pub word: Word,
    pub describing: Player,
    pub guessing: Player,
}

/// What the round timer learns when it stops a round: either the next
/// round's standings and describer, or that the game is over.
pub enum RoundStopState {
    RoundFinished(String, Player, usize, usize),
    GameFinished(String),
}

/// One room: a lobby assembling teams, or a game being played.
pub enum Room {
    Lobby(NewRoom),
    Playing(PlayingRoom),
}

impl Room {
    pub open spec fn wf(self) -> bool {
        match self {
            Room::Lobby(lobby) => lobby.wf(),
            Room::Playing(playing) => playing.wf(),
        }
    }

    /// A fresh room in its lobby, with empty team sets.
    pub fn new(
        number_of_teams: usize,
        number_of_rounds: usize,
        round_duration: usize,
        use_taboo_words: bool,
    ) -> (r: Self)
        requires
            2 <= number_of_teams <= 7,
            1 <= number_of_rounds <= 7,
            1 <= round_duration <= 10,
        ensures
            r.wf(),
            r matches Room::Lobby(lobby) && lobby.players@.len() == 0 && lobby.teams@.len()
                == number_of_teams && (forall|t: int|
                0 <= t < number_of_teams ==> #[trigger] lobby.team_seq(t).len() == 0)
                && lobby.number_of_teams == number_of_teams && lobby.number_of_rounds
                == number_of_rounds && lobby.round_duration == round_duration
                && lobby.use_taboo_words == use_taboo_words,
    {
        Room::Lobby(NewRoom::new(number_of_teams, number_of_rounds, round_duration, use_taboo_words))
    }

    /// Registers a player; lobby only.
    pub fn join(&mut self, player: Player) -> (r: Result<(Vec<u64>, usize), GameLogicError>)
        requires
            old(self).wf(),
        ensures
            final(self).wf(),
            *old(self) is Playing ==> r == Err::<(Vec<u64>, usize), GameLogicError>(
                GameLogicError::JoinAfterPlay,
            ) && *final(self) == *old(self),
            *old(self) is Lobby ==> {
                let lobby = (*old(self))->Lobby_0;
                &&& *final(self) is Lobby
                &&& (lobby.joined(player.id) ==> r == Err::<(Vec<u64>, usize), GameLogicError>(
                    GameLogicError::AlreadyJoined,
                ) && *final(self) == *old(self))
                &&& (!lobby.joined(player.id) ==> {
                    let post = (*final(self))->Lobby_0;
                    &&& post.players@ == lobby.players@.push(player)
                    &&& post.teams@ == lobby.teams@
                    &&& post.number_of_teams == lobby.number_of_teams
                    &&& post.number_of_rounds == lobby.number_of_rounds
                    &&& post.round_duration == lobby.round_duration
                    &&& post.use_taboo_words == lobby.use_taboo_words
                    &&& (r matches Ok(ok) && ok.0@ == ids_of(post.players@) && ok.1
                        == lobby.number_of_teams)
                })
            },
    {
        match self {
            Room::Lobby(lobby) => lobby.join(player),
            Room::Playing(_) => Err(GameLogicError::JoinAfterPlay),
        }
    }

    /// Moves a joined player onto team `team_index`; lobby only.
    pub fn join_team(&mut self, user_id: u64, team_index: usize) -> (r: Result<
        Vec<u64>,
        GameLogicError,
    >)
        requires
            old(self).wf(),
            *old(self) is Lobby && (*old(self))->Lobby_0.joined(user_id) ==> team_index < (*old(self))->Lobby_0.teams@.len(),
        ensures
            final(self).wf(),
            *old(self) is Playing ==> r == Err::<Vec<u64>, GameLogicError>(
                GameLogicError::TeamChangeAfterPlay,
            ) && *final(self) == *old(self),
            *old(self) is Lobby ==> {
                let lobby = (*old(self))->Lobby_0;
                &&& *final(self) is Lobby
                &&& (!lobby.joined(user_id) ==> r == Err::<Vec<u64>, GameLogicError>(
                    GameLogicError::NotJoinedToRoom,
                ) && *final(self) == *old(self))
                &&& (lobby.joined(user_id) ==> {
                    let post = (*final(self))->Lobby_0;
                    &&& post.players@ == lobby.players@
                    &&& post.teams_view() == assign_team(
                        lobby.teams_view(),
                        user_id,
                        team_index as int,
                    )
                    &&& post.number_of_teams == lobby.number_of_teams
                    &&& post.number_of_rounds == lobby.number_of_rounds
                    &&& post.round_duration == lobby.round_duration
                    &&& post.use_taboo_words == lobby.use_taboo_words
                    &&& (r matches Ok(ids) && ids@ == ids_of(lobby.players@))
                })
            },
    {
        match self {
            Room::Lobby(lobby) => lobby.join_team(user_id, team_index),
            Room::Playing(_) => Err(GameLogicError::TeamChangeAfterPlay),
        }
    }

    /// The roster text: team membership in the lobby, standings in play.
    pub fn get_teams(&self) -> (r: String)
        requires
            self.wf(),
        ensures
            match *self {
                Room::Lobby(lobby) => r@ == lobby_status(lobby),
                Room::Playing(playing) => r@ == playing_status(playing.teams@),
            },
    {
        match self {
            Room::Lobby(lobby) => lobby.get_teams(),
            Room::Playing(playing) => playing.get_teams(),
        }
    }

    /// Everyone to notify: all joined players in the lobby, all team
    /// members in play.
    pub fn get_all_players(&self) -> (r: Vec<u64>)
        ensures
            match *self {
                Room::Lobby(lobby) => r@ == ids_of(lobby.players@),
                Room::Playing(playing) => r@ == playing_ids(playing.teams@),
            },
    {
        match self {
            Room::Lobby(lobby) => lobby.collect_ids(),
            Room::Playing(playing) => {
                let mut out: Vec<u64> = Vec::new();
                let mut t: usize = 0;
                let n = playing.teams.len();
                while t < n
                    invariant
                        n == playing.teams@.len(),
                        t <= n,
                        out@ == playing_ids(playing.teams@.take(t as int)),
                    decreases n - t,
                {
                    proof {
                        let upto = playing.teams@.take(t as int + 1);
                        assert(upto.drop_last() =~= playing.teams@.take(t as int));
                        assert(upto.last() == playing.teams@[t as int]);
                    }
                    out.push(playing.teams[t].first.id);
                    out.push(playing.teams[t].second.id);
                    proof {
                        assert(out@ =~= playing_ids(playing.teams@.take(t as int + 1)));
                    }
                    t += 1;
                }
                proof {
                    assert(playing.teams@.take(n as int) =~= playing.teams@);
                }
                out
            },
        }
    }

    /// Starts the game; lobby only, and only with every team at exactly
    /// two members.  Teams enter play in a random order; the first team's
    /// first member describes first.
    pub fn play(&mut self, now_ms: u64) -> (r: Result<Player, GameLogicError>)
        requires
            old(self).wf(),
        ensures
            final(self).wf(),
            *old(self) is Playing ==> r == Err::<Player, GameLogicError>(
                GameLogicError::AlreadyPlaying,
            ) && *final(self) == *old(self),
            *old(self) is Lobby ==> {
                let lobby = (*old(self))->Lobby_0;
                &&& (!lobby.balanced() ==> r == Err::<Player, GameLogicError>(
                    GameLogicError::NotBalancedTeams,
                ) && *final(self) == *old(self))
                &&& (lobby.balanced() ==> {
                    let post = (*final(self))->Playing_0;
                    &&& *final(self) is Playing
                    &&& play_rel(lobby, post, now_ms)
                    &&& (r matches Ok(p) && p == post.active_team().spec_describing())
                })
            },
    {
        match self {
            Room::Lobby(lobby) => {
                if let Err(e) = lobby.check_teams_ready() {
                    return Err(e);
                }
                let playing = build_playing(lobby, now_ms);
                let describing = playing.get_describing_player();
                *self = Room::Playing(playing);
                Ok(describing)
            },
            Room::Playing(_) => Err(GameLogicError::AlreadyPlaying),
        }
    }

    /// Resets the round clock and hands the active pair a fresh word;
    /// playing only.
    pub fn start_round(&mut self, catalog: &WordCatalog, now_ms: u64) -> (r: Result<
        WordGuessTry,
        GameLogicError,
    >)
        requires
            old(self).wf(),
            catalog.wf(),
        ensures
            final(self).wf(),
            *old(self) is Lobby ==> r == Err::<WordGuessTry, GameLogicError>(
                GameLogicError::IsNotPlaying,
            ) && *final(self) == *old(self),
            *old(self) is Playing ==> {
                let pre = (*old(self))->Playing_0;
                let post = (*final(self))->Playing_0;
                &&& *final(self) is Playing
                &&& post == (PlayingRoom { round_started_at: now_ms, ..pre })
                &&& (r matches Ok(t) && catalog.sourced(t.word) && t.describing
                    == post.active_team().spec_describing() && t.guessing
                    == post.active_team().spec_guessing() && t.describing.id != t.guessing.id)
            },
    {
        match self {
            Room::Lobby(_) => Err(GameLogicError::IsNotPlaying),
            Room::Playing(playing) => {
                playing.round_started_at = now_ms;
                Ok(
                    WordGuessTry {
                        word: catalog.get_random_word(),
                        describing: playing.get_describing_player(),
                        guessing: playing.get_guessing_player(),
                    },
                )
            },
        }
    }

    /// Credits the active team, rotates to the next team, and hands its
    /// pair a fresh word; playing only.
    pub fn correct(&mut self, catalog: &WordCatalog, now_ms: u64) -> (r: Result<
        WordGuessTry,
        GameLogicError,
    >)
        requires
            old(self).wf(),
            catalog.wf(),
        ensures
            final(self).wf(),
            *old(self) is Lobby ==> r == Err::<WordGuessTry, GameLogicError>(
                GameLogicError::IsNotPlaying,
            ) && *final(self) == *old(self),
            *old(self) is Playing ==> {
                let pre = (*old(self))->Playing_0;
                let post = (*final(self))->Playing_0;
                &&& *final(self) is Playing
                &&& self_correct_step(pre, post, now_ms)
                &&& (r matches Ok(t) && catalog.sourced(t.word) && t.describing
                    == post.active_team().spec_describing() && t.guessing
                    == post.active_team().spec_guessing() && t.describing.id != t.guessing.id)
            },
    {
        match self {
            Room::Lobby(_) => Err(GameLogicError::IsNotPlaying),
            Room::Playing(playing) => {
                playing.next(now_ms);
                Ok(
                    WordGuessTry {
                        word: catalog.get_random_word(),
                        describing: playing.get_describing_player(),
                        guessing: playing.get_guessing_player(),
                    },
                )
            },
        }
    }

    /// Hands the same pair another word, changing nothing else; playing
    /// only.
    pub fn skip(&self, catalog: &WordCatalog) -> (r: Result<WordGuessTry, GameLogicError>)
        requires
            self.wf(),
            catalog.wf(),
        ensures
            *self is Lobby ==> r == Err::<WordGuessTry, GameLogicError>(
                GameLogicError::IsNotPlaying,
            ),
            *self is Playing ==> {
                let playing = (*self)->Playing_0;
                r matches Ok(t) && catalog.sourced(t.word) && t.describing
                    == playing.active_team().spec_describing() && t.guessing
                    == playing.active_team().spec_guessing() && t.describing.id != t.guessing.id
            },
    {
        match self {
            Room::Lobby(_) => Err(GameLogicError::IsNotPlaying),
            Room::Playing(playing) => Ok(
                WordGuessTry {
                    word: catalog.get_random_word(),
                    describing: playing.get_describing_player(),
                    guessing: playing.get_guessing_player(),
                },
            ),
        }
    }

    /// Records the latest interactive prompt; playing only.
    pub fn push_to_message_stack(&mut self, chat_id: i64, message_id: i32) -> (r: Result<
        (),
        GameLogicError,
    >)
        requires
            old(self).wf(),
        ensures
            final(self).wf(),
            *old(self) is Lobby ==> r == Err::<(), GameLogicError>(GameLogicError::IsNotPlaying)
                && *final(self) == *old(self),
            *old(self) is Playing ==> {
                let pre = (*old(self))->Playing_0;
                let post = (*final(self))->Playing_0;
                &&& *final(self) is Playing
                &&& r == Ok::<(), GameLogicError>(())
                &&& post.message_stack@ == pre.message_stack@.push((chat_id, message_id))
                &&& post.teams == pre.teams
                &&& post.turn == pre.turn
                &&& post.round == pre.round
                &&& post.round_started_at == pre.round_started_at
                &&& post.number_of_rounds == pre.number_of_rounds
                &&& post.round_duration == pre.round_duration
                &&& post.use_taboo_words == pre.use_taboo_words
            },
    {
        match self {
            Room::Lobby(_) => Err(GameLogicError::IsNotPlaying),
            Room::Playing(playing) => {
                playing.message_stack.push((chat_id, message_id));
                Ok(())
            },
        }
    }

    /// The most recently recorded prompt, if any; playing only.
    pub fn get_message_stack_top(&self) -> (r: Result<Option<(i64, i32)>, GameLogicError>)
        ensures
            *self is Lobby ==> r == Err::<Option<(i64, i32)>, GameLogicError>(
                GameLogicError::IsNotPlaying,
            ),
            *self is Playing ==> {
                let playing = (*self)->Playing_0;
                r == Ok::<Option<(i64, i32)>, GameLogicError>(
                    if playing.message_stack@.len() > 0 {
                        Some(playing.message_stack@.last())
                    } else {
                        None
                    },
                )
            },
    {
        match self {
            Room::Lobby(_) => Err(GameLogicError::IsNotPlaying),
            Room::Playing(playing) => {
                if playing.message_stack.len() > 0 {
                    let top = playing.message_stack[playing.message_stack.len() - 1];
                    Ok(Some(top))
                } else {
                    Ok(None)
                }
            },
        }
    }

    /// Is this prompt still the latest one recorded for the room?  Late
    /// timer actions check this before touching their prompt.
    pub fn is_latest_prompt(&self, chat_id: i64, message_id: i32) -> (r: Result<
        bool,
        GameLogicError,
    >)
        ensures
            *self is Lobby ==> r == Err::<bool, GameLogicError>(GameLogicError::IsNotPlaying),
            *self is Playing ==> {
                let playing = (*self)->Playing_0;
                r == Ok::<bool, GameLogicError>(
                    playing.message_stack@.len() > 0 && playing.message_stack@.last() == (
                    chat_id,
                    message_id,
                ),
                )
            },
    {
        match self.get_message_stack_top() {
            Err(e) => Err(e),
            Ok(None) => Ok(false),
            Ok(Some((chat, message))) => Ok(chat == chat_id && message == message_id),
        }
    }

    /// Stops the round: credits whichever team is active, steps the round
    /// counter, and reports the standings — with the game's end once the
    /// configured rounds are spent; playing only.
    pub fn stop_round(&mut self, now_ms: u64) -> (r: Result<RoundStopState, GameLogicError>)
        requires
            old(self).wf(),
        ensures
            final(self).wf(),
            *old(self) is Lobby ==> r == Err::<RoundStopState, GameLogicError>(
                GameLogicError::IsNotPlaying,
            ) && *final(self) == *old(self),
            *old(self) is Playing ==> {
                let pre = (*old(self))->Playing_0;
                let post = (*final(self))->Playing_0;
                &&& *final(self) is Playing
                &&& stop_step(pre, post, now_ms)
                &&& (post.round == post.number_of_rounds ==> (r matches Ok(
                    RoundStopState::GameFinished(results),
                ) && results@ == playing_status(post.teams@)))
                &&& (post.round < post.number_of_rounds ==> (r matches Ok(
                    RoundStopState::RoundFinished(results, describing, round_shown, total),
                ) && results@ == playing_status(post.teams@) && describing
                    == post.active_team().spec_describing() && round_shown == post.round + 1
                    && total == post.number_of_rounds))
            },
    {
        match self {
            Room::Lobby(_) => Err(GameLogicError::IsNotPlaying),
            Room::Playing(playing) => {
                if playing.round >= playing.number_of_rounds {
                    return Ok(RoundStopState::GameFinished(playing.get_teams()));
                }
                let since = playing.round_started_at;
                let at = playing.turn;
                let team = &mut playing.teams[at];
                team.update_time(now_ms, since);
                let results = playing.get_teams();
                playing.round = playing.round + 1;
                if playing.round == playing.number_of_rounds {
                    playing.message_stack.clear();
                    Ok(RoundStopState::GameFinished(results))
                } else {
                    Ok(
                        RoundStopState::RoundFinished(
                            results,
                            playing.get_describing_player(),
                            playing.round + 1,
                            playing.number_of_rounds,
                        ),
                    )
                }
            },
        }
    }

    /// Has the game started?
    pub fn is_playing(&self) -> (r: bool)
        ensures
            r == (*self is Playing),
    {
        match self {
            Room::Lobby(_) => false,
            Room::Playing(_) => true,
        }
    }

    /// The configured number of teams.
    pub fn number_of_teams(&self) -> (r: usize)
        ensures
            r == match *self {
                Room::Lobby(lobby) => lobby.number_of_teams as int,
                Room::Playing(playing) => playing.teams@.len() as int,
            },
    {
        match self {
            Room::Lobby(lobby) => lobby.number_of_teams,
            Room::Playing(playing) => playing.teams.len(),
        }
    }

    /// The configured round length in minutes.
    pub fn round_duration(&self) -> (r: usize)
        ensures
            r == match *self {
                Room::Lobby(lobby) => lobby.round_duration,
                Room::Playing(playing) => playing.round_duration,
            },
    {
        match self {
            Room::Lobby(lobby) => lobby.round_duration,
            Room::Playing(playing) => playing.round_duration,
        }
    }

    /// Whether taboo hint words are shown with each drawn word.
    pub fn use_taboo_words(&self) -> (r: bool)
        ensures
            r == match *self {
                Room::Lobby(lobby) => lobby.use_taboo_words,
                Room::Playing(playing) => playing.use_taboo_words,
            },
    {
        match self {
            Room::Lobby(lobby) => lobby.use_taboo_words,
            Room::Playing(playing) => playing.use_taboo_words,
        }
    }
}

/// The identifiers of all team members in play, in team order.
pub open spec fn playing_ids(ts: Seq<PlayingTeam>) -> Seq<u64>
    decreases ts.len(),
{
    if ts.len() == 0 {
        Seq::empty()
    } else {
        playing_ids(ts.drop_last()) + seq![ts.last().first.id, ts.last().second.id]
    }
}


/// Does the round-robin rotation starting at team `start` of `n` teams
/// reach team `t` within the first `i` steps?
pub open spec fn rotated_through(start: int, n: int, i: int, t: int) -> bool {
    (if t >= start {
        t - start
    } else {
        t - start + n
    }) < i
}

/// Accumulated time per team never decreases, and only the team active at
/// the moment of a correct guess or a round stop gains time.
pub proof fn lemma_time_monotone(pre: PlayingRoom, post: PlayingRoom, now_ms: u64)
    requires
        pre.wf(),
        self_correct_step(pre, post, now_ms) || stop_step(pre, post, now_ms),
    ensures
        forall|t: int|
            0 <= t < pre.teams@.len() ==> pre.teams@[t].time_ms <= (
            #[trigger] post.teams@[t]).time_ms,
        forall|t: int|
            0 <= t < pre.teams@.len() && t != pre.turn ==> (#[trigger] post.teams@[t]).time_ms
                == pre.teams@[t].time_ms,
{
}

/// `correct` cycles the active team round-robin with period equal to the
/// team count, and one full cycle flips each team's describer role exactly
/// once: `rooms` is any run of states joined by correct guesses at the
/// times `nows`.
proof fn lemma_mod_incr(a: int, n: int)
    requires
        n > 0,
        0 <= a,
    ensures
        (a % n + 1) % n == (a + 1) % n,
{
    vstd::arithmetic::div_mod::lemma_fundamental_div_mod(a, n);
    vstd::arithmetic::div_mod::lemma_mod_bound(a, n);
    let q = a / n;
    let r = a % n;
    assert(a == q * n + r) by (nonlinear_arith)
        requires
            a == n * q + r,
    ;
    if r + 1 < n {
        vstd::arithmetic::div_mod::lemma_small_mod((r + 1) as nat, n as nat);
        vstd::arithmetic::div_mod::lemma_fundamental_div_mod_converse(a + 1, n, q, r + 1);
    } else {
        vstd::arithmetic::div_mod::lemma_mod_self_0(n);
        assert(a + 1 == (q + 1) * n) by (nonlinear_arith)
            requires
                a == q * n + r,
                r + 1 == n,
        ;
        vstd::arithmetic::div_mod::lemma_fundamental_div_mod_converse(a + 1, n, q + 1, 0);
    }
}

proof fn lemma_offset_of_mod(start: int, n: int, i: int)
    requires
        0 <= start < n,
        0 <= i < n,
    ensures
        ({
            let t = (start + i) % n;
            &&& 0 <= t < n
            &&& (if t >= start {
                t - start
            } else {
                t - start + n
            }) == i
        }),
{
    if start + i < n {
        vstd::arithmetic::div_mod::lemma_small_mod((start + i) as nat, n as nat);
    } else {
        vstd::arithmetic::div_mod::lemma_fundamental_div_mod_converse(
            start + i,
            n,
            1,
            start + i - n,
        );
    }
}

/// `correct` cycles the active team round-robin: after `i` correct
/// guesses the active team index has advanced `i` places modulo the team
/// count, so the cycle's period is the team count.  `rooms` is any run of
/// states joined by correct guesses at the times `nows`.
pub proof fn lemma_round_robin_turns(rooms: Seq<PlayingRoom>, nows: Seq<u64>)
    requires
        rooms.len() >= 1,
        rooms[0].wf(),
        nows.len() == rooms.len() - 1,
        forall|i: int|
            0 <= i < nows.len() ==> self_correct_step(#[trigger] rooms[i], rooms[i + 1], nows[i]),
    ensures
        forall|i: int|
            0 <= i < rooms.len() ==> (#[trigger] rooms[i]).turn as int == (rooms[0].turn + i) % (
            rooms[0].teams@.len() as int),
        forall|i: int| 0 <= i < rooms.len() ==> (#[trigger] rooms[i]).wf(),
        forall|i: int|
            0 <= i < rooms.len() ==> (#[trigger] rooms[i]).teams@.len() == rooms[0].teams@.len(),
    decreases rooms.len(),
{
    let n = rooms[0].teams@.len() as int;
    let start = rooms[0].turn as int;
    if rooms.len() == 1 {
        vstd::arithmetic::div_mod::lemma_small_mod(start as nat, n as nat);
    } else {
        let head = rooms.drop_last();
        lemma_round_robin_turns(head, nows.drop_last());
        assert(forall|i: int| 0 <= i < head.len() ==> head[i] == #[trigger] rooms[i]);
        let i = rooms.len() - 2;
        let pre = rooms[i];
        let post = rooms[i + 1];
        assert(self_correct_step(pre, post, nows[i]));
        let cur = pre.turn as int;
        assert(post.turn as int == (start + (i + 1)) % n) by {
            assert(cur == (start + i) % n);
            assert(post.turn as int == (cur + 1) % n);
            lemma_mod_incr(start + i, n);
        }
        assert(post.wf()) by {
            vstd::arithmetic::div_mod::lemma_mod_bound(start + i + 1, n);
            assert forall|t: int| 0 <= t < n implies (#[trigger] post.teams@[t]).wf() by {
                if t != cur {
                    assert(post.teams@[t] == pre.teams@[t]);
                }
            }
        }
        assert forall|k: int|
            0 <= k < rooms.len() implies (#[trigger] rooms[k]).turn as int == (start + k) % n by {
            if k < rooms.len() - 1 {
                assert(head[k] == rooms[k]);
            }
        }
    }
}

/// Over one cycle through the teams, each team's describer role flips
/// exactly once: after `i` correct guesses, with `i` at most the team
/// count, exactly the `i` teams the rotation has passed have flipped.
pub proof fn lemma_round_robin_flags(rooms: Seq<PlayingRoom>, nows: Seq<u64>)
    requires
        rooms.len() >= 1,
        rooms[0].wf(),
        nows.len() == rooms.len() - 1,
        rooms.len() <= rooms[0].teams@.len() + 1,
        forall|i: int|
            0 <= i < nows.len() ==> self_correct_step(#[trigger] rooms[i], rooms[i + 1], nows[i]),
    ensures
        forall|i: int, t: int|
            0 <= i < rooms.len() && 0 <= t < rooms[0].teams@.len() ==> (
            #[trigger] rooms[i].teams@[t]).turn == (if rotated_through(
                rooms[0].turn as int,
                rooms[0].teams@.len() as int,
                i,
                t,
            ) {
                flip(rooms[0].teams@[t].turn)
            } else {
                rooms[0].teams@[t].turn
            }),
    decreases rooms.len(),
{
    let n = rooms[0].teams@.len() as int;
    let start = rooms[0].turn as int;
    if rooms.len() > 1 {
        let head = rooms.drop_last();
        lemma_round_robin_flags(head, nows.drop_last());
        lemma_round_robin_turns(rooms, nows);
        assert(forall|i: int| 0 <= i < head.len() ==> head[i] == #[trigger] rooms[i]);
        let i = rooms.len() - 2;
        let pre = rooms[i];
        let post = rooms[i + 1];
        assert(self_correct_step(pre, post, nows[i]));
        let cur = pre.turn as int;
        assert(cur == (start + i) % n);
        lemma_offset_of_mod(start, n, i);
        let off_cur = if cur >= start {
            cur - start
        } else {
            cur - start + n
        };
        assert(off_cur == i);
        assert forall|t: int|
            0 <= t < n implies (#[trigger] post.teams@[t]).turn == (if rotated_through(
            start,
            n,
            i + 1,
            t,
        ) {
            flip(rooms[0].teams@[t].turn)
        } else {
            rooms[0].teams@[t].turn
        }) by {
            let off_t = if t >= start {
                t - start
            } else {
                t - start + n
            };
            assert(pre.teams@[t].turn == (if rotated_through(start, n, i, t) {
                flip(rooms[0].teams@[t].turn)
            } else {
                rooms[0].teams@[t].turn
            }));
            if t == cur {
                assert(post.teams@[t].turn == flip(pre.teams@[t].turn));
            } else {
                assert(post.teams@[t] == pre.teams@[t]);
                assert(off_t != i);
            }
        }
    }
}

/// One full cycle of correct guesses — as many as there are teams —
/// hands the turn back to the team that began it, with every team's
/// describer and guesser swapped exactly once.
pub proof fn lemma_full_cycle(rooms: Seq<PlayingRoom>, nows: Seq<u64>)
    requires
        rooms.len() >= 1,
        rooms[0].wf(),
        rooms.len() == rooms[0].teams@.len() + 1,
        nows.len() == rooms.len() - 1,
        forall|i: int|
            0 <= i < nows.len() ==> self_correct_step(#[trigger] rooms[i], rooms[i + 1], nows[i]),
    ensures
        rooms.last().turn == rooms[0].turn,
        forall|t: int|
            0 <= t < rooms[0].teams@.len() ==> (#[trigger] rooms.last().teams@[t]).turn == flip(
                rooms[0].teams@[t].turn,
            ),
{
    let n = rooms[0].teams@.len() as int;
    let start = rooms[0].turn as int;
    lemma_round_robin_turns(rooms, nows);
    lemma_round_robin_flags(rooms, nows);
    assert(rooms.last() == rooms[n]);
    assert((start + n) % n == start) by {
        vstd::arithmetic::div_mod::lemma_fundamental_div_mod_converse(start + n, n, 1, start);
    }
    assert forall|t: int|
        0 <= t < n implies (#[trigger] rooms.last().teams@[t]).turn == flip(
        rooms[0].teams@[t].turn,
    ) by {
        assert(rotated_through(start, n, n, t));
        assert(rooms[n].teams@[t].turn == flip(rooms[0].teams@[t].turn));
    }
}

/// From round zero, the `k`-th `stop_round` leaves the counter at exactly
/// `k`; the run reaches `number_of_rounds` on the last allowed call and no
/// earlier, so that call alone reports the game finished.
pub proof fn lemma_round_progress(rooms: Seq<PlayingRoom>, nows: Seq<u64>)
    requires
        rooms.len() >= 1,
        rooms[0].wf(),
        rooms[0].round == 0,
        rooms.len() <= rooms[0].number_of_rounds + 1,
        nows.len() == rooms.len() - 1,
        forall|i: int|
            0 <= i < nows.len() ==> stop_step(#[trigger] rooms[i], rooms[i + 1], nows[i]),
    ensures
        forall|i: int| 0 <= i < rooms.len() ==> (#[trigger] rooms[i]).round == i,
        forall|i: int|
            0 <= i < rooms.len() ==> (#[trigger] rooms[i]).number_of_rounds
                == rooms[0].number_of_rounds,
        forall|i: int|
            0 <= i < nows.len() ==> ((#[trigger] rooms[i + 1]).round == rooms[i
                + 1].number_of_rounds <==> i + 1 == rooms[0].number_of_rounds as int),
    decreases rooms.len(),
{
    if rooms.len() > 1 {
        let head = rooms.drop_last();
        lemma_round_progress(head, nows.drop_last());
        assert(forall|i: int| 0 <= i < head.len() ==> head[i] == #[trigger] rooms[i]);
        let i = rooms.len() - 2;
        assert(stop_step(rooms[i], rooms[i + 1], nows[i]));
        assert(rooms[i].round == i < rooms[i].number_of_rounds);
    }
}

proof fn lemma_playing_ids_index(ts: Seq<PlayingTeam>)
    ensures
        playing_ids(ts).len() == 2 * ts.len(),
        forall|k: int|
            0 <= k < ts.len() ==> playing_ids(ts)[2 * k] == (#[trigger] ts[k]).first.id
                && playing_ids(ts)[2 * k + 1] == ts[k].second.id,
    decreases ts.len(),
{
    if ts.len() > 0 {
        let head = ts.drop_last();
        lemma_playing_ids_index(head);
        let pair = seq![ts.last().first.id, ts.last().second.id];
        assert(playing_ids(ts) == playing_ids(head) + pair);
        assert forall|k: int|
            0 <= k < ts.len() implies playing_ids(ts)[2 * k] == (#[trigger] ts[k]).first.id
            && playing_ids(ts)[2 * k + 1] == ts[k].second.id by {
            if k < ts.len() - 1 {
                assert(head[k] == ts[k]);
                assert(playing_ids(ts)[2 * k] == playing_ids(head)[2 * k]);
                assert(playing_ids(ts)[2 * k + 1] == playing_ids(head)[2 * k + 1]);
            }
        }
    }
}

proof fn lemma_playing_ids_members(ts: Seq<PlayingTeam>, id: u64)
    ensures
        playing_ids(ts).contains(id) <==> exists|k: int|
            0 <= k < ts.len() && ((#[trigger] ts[k]).first.id == id || ts[k].second.id == id),
    decreases ts.len(),
{
    broadcast use vstd::seq_lib::group_seq_properties;

    if ts.len() > 0 {
        let head = ts.drop_last();
        lemma_playing_ids_members(head, id);
        let pair = seq![ts.last().first.id, ts.last().second.id];
        assert(playing_ids(ts) == playing_ids(head) + pair);
        if playing_ids(ts).contains(id) {
            let j = choose|j: int| 0 <= j < playing_ids(ts).len() && playing_ids(ts)[j] == id;
            if j < playing_ids(head).len() {
                assert(playing_ids(head)[j] == id);
                let k = choose|k: int|
                    0 <= k < head.len() && ((#[trigger] head[k]).first.id == id || head[k].second.id
                        == id);
                assert(ts[k] == head[k]);
            } else {
                assert(ts[ts.len() - 1].first.id == id || ts[ts.len() - 1].second.id == id);
            }
        }
        if exists|k: int|
            0 <= k < ts.len() && ((#[trigger] ts[k]).first.id == id || ts[k].second.id == id) {
            let k = choose|k: int|
                0 <= k < ts.len() && ((#[trigger] ts[k]).first.id == id || ts[k].second.id == id);
            if k < ts.len() - 1 {
                assert(head[k] == ts[k]);
                assert(playing_ids(head).contains(id));
                let j = choose|j: int|
                    0 <= j < playing_ids(head).len() && playing_ids(head)[j] == id;
                assert(playing_ids(ts)[j] == id);
            } else {
                if ts[k].first.id == id {
                    assert(playing_ids(ts)[playing_ids(head).len() as int] == id);
                } else {
                    assert(playing_ids(ts)[playing_ids(head).len() as int + 1] == id);
                }
            }
        }
    }
}

/// After a successful `start_game` the playing roster lists each player
/// once, and carries exactly the identifiers that sat in team sets at the
/// moment of transition; when every joined player had picked a team, that
/// is exactly the joined roster, whatever order the shuffle chose.
pub proof fn lemma_play_preserves_players(lobby: NewRoom, p: PlayingRoom, now_ms: u64)
    requires
        lobby.wf(),
        lobby.balanced(),
        play_rel(lobby, p, now_ms),
    ensures
        playing_ids(p.teams@).no_duplicates(),
        forall|id: u64|
            playing_ids(p.teams@).contains(id) <==> exists|t: int|
                0 <= t < lobby.teams@.len() && lobby.in_team(id, t),
        (forall|id: u64|
            lobby.joined(id) ==> exists|t: int| 0 <= t < lobby.teams@.len() && lobby.in_team(
                id,
                t,
            )) ==> forall|id: u64| playing_ids(p.teams@).contains(id) <==> lobby.joined(id),
{
    let infos = team_infos(p.teams@);
    let formed = formed_infos(lobby);
    crate::seqs::lemma_same_multiset_same_members(infos, formed);
    assert(formed.no_duplicates()) by {
        assert forall|t1: int, t2: int| 0 <= t1 < t2 < formed.len() implies formed[t1]
            != formed[t2] by {
            assert(lobby.team_seq(t1).len() == 2 && lobby.team_seq(t2).len() == 2);
            if formed[t1].first_id == formed[t2].first_id {
                assert(lobby.in_team(formed[t1].first_id, t1));
                assert(lobby.in_team(formed[t2].first_id, t2));
            }
        }
    }
    assert(infos.no_duplicates()) by {
        formed.lemma_multiset_has_no_duplicates();
        assert forall|x: TeamInfo| infos.to_multiset().contains(x) implies infos.to_multiset()
            .count(x) == 1 by {
            assert(formed.to_multiset().contains(x));
        }
        infos.lemma_multiset_has_no_duplicates_conv();
    }
    lemma_playing_ids_index(p.teams@);
    assert(playing_ids(p.teams@).no_duplicates()) by {
        let all_ids = playing_ids(p.teams@);
        assert forall|a: int, b: int| 0 <= a < b < all_ids.len() implies all_ids[a]
            != all_ids[b] by {
            let k1 = a / 2;
            let k2 = b / 2;
            assert(a == 2 * k1 || a == 2 * k1 + 1);
            assert(b == 2 * k2 || b == 2 * k2 + 1);
            assert(0 <= k1 < p.teams@.len() && 0 <= k2 < p.teams@.len());
            let id_a = all_ids[a];
            let id_b = all_ids[b];
            assert(infos[k1] == info_of(p.teams@[k1]) && infos[k2] == info_of(p.teams@[k2]));
            assert(infos.contains(infos[k1]) && infos.contains(infos[k2]));
            assert(formed.contains(infos[k1]) && formed.contains(infos[k2]));
            let t1 = choose|t: int| 0 <= t < formed.len() && formed[t] == infos[k1];
            let t2 = choose|t: int| 0 <= t < formed.len() && formed[t] == infos[k2];
            assert(lobby.team_seq(t1).len() == 2 && lobby.team_seq(t2).len() == 2);
            assert(lobby.in_team(infos[k1].first_id, t1) && lobby.in_team(
                infos[k1].second_id,
                t1,
            ));
            assert(lobby.in_team(infos[k2].first_id, t2) && lobby.in_team(
                infos[k2].second_id,
                t2,
            ));
            if k1 == k2 {
                assert(a == 2 * k1 && b == 2 * k1 + 1);
                assert(id_a == infos[k1].first_id && id_b == infos[k1].second_id);
                assert(infos[k1].first_id != infos[k1].second_id) by {
                    assert(formed[t1].first_id == lobby.team_seq(t1)[0]);
                    assert(formed[t1].second_id == lobby.team_seq(t1)[1]);
                    assert(lobby.team_seq(t1).no_duplicates());
                }
            } else {
                assert(t1 != t2) by {
                    if t1 == t2 {
                        assert(infos[k1] == infos[k2]);
                    }
                }
                assert(id_a == infos[k1].first_id || id_a == infos[k1].second_id);
                assert(id_b == infos[k2].first_id || id_b == infos[k2].second_id);
                if id_a == id_b {
                    assert(lobby.in_team(id_a, t1) && lobby.in_team(id_a, t2));
                }
            }
        }
    }
    assert forall|id: u64| playing_ids(p.teams@).contains(id) implies exists|t: int|
        0 <= t < lobby.teams@.len() && lobby.in_team(id, t) by {
        lemma_playing_ids_members(p.teams@, id);
        let k = choose|k: int|
            0 <= k < p.teams@.len() && ((#[trigger] p.teams@[k]).first.id == id
                || p.teams@[k].second.id == id);
        assert(infos[k] == info_of(p.teams@[k]));
        assert(infos.contains(infos[k]));
        assert(formed.contains(infos[k]));
        let t = choose|t: int| 0 <= t < formed.len() && formed[t] == infos[k];
        assert(lobby.team_seq(t)[0] == id || lobby.team_seq(t)[1] == id);
        assert(lobby.in_team(id, t));
    }
    assert forall|id: u64, t: int|
        0 <= t < lobby.teams@.len() && #[trigger] lobby.in_team(id, t) implies playing_ids(
        p.teams@,
    ).contains(id) by {
        let j = choose|j: int| 0 <= j < lobby.team_seq(t).len() && lobby.team_seq(t)[j] == id;
        assert(formed[t].first_id == id || formed[t].second_id == id);
        assert(formed.contains(formed[t]));
        assert(infos.contains(formed[t]));
        let k = choose|k: int| 0 <= k < infos.len() && infos[k] == formed[t];
        assert(infos[k] == info_of(p.teams@[k]));
        lemma_playing_ids_members(p.teams@, id);
    }
    assert forall|id: u64|
        (forall|id2: u64|
            lobby.joined(id2) ==> exists|t: int| 0 <= t < lobby.teams@.len() && lobby.in_team(
                id2,
                t,
            )) implies (playing_ids(p.teams@).contains(id) <==> lobby.joined(id)) by {
        if playing_ids(p.teams@).contains(id) {
            let t = choose|t: int| 0 <= t < lobby.teams@.len() && lobby.in_team(id, t);
            let j = choose|j: int| 0 <= j < lobby.team_seq(t).len() && lobby.team_seq(t)[j] == id;
            assert(lobby.joined(lobby.team_seq(t)[j]));
        }
    }
}


/// The timing of one round, in seconds: the round ends after
/// `round_duration` minutes, and the three countdown alerts fire one
/// minute, thirty seconds and ten seconds before that end.
pub fn round_schedule(round_duration: usize) -> (r: (Vec<u64>, u64))
    requires
        1 <= round_duration <= 10,
    ensures
        r.1 == round_duration * 60,
        r.0@ == seq![
            (round_duration * 60 - 60) as u64,
            (round_duration * 60 - 30) as u64,
            (round_duration * 60 - 10) as u64,
        ],
{
    let total_seconds = (round_duration * 60) as u64;
    let mut alerts: Vec<u64> = Vec::new();
    alerts.push(total_seconds - 60);
    alerts.push(total_seconds - 30);
    alerts.push(total_seconds - 10);
    proof {
        assert(alerts@ =~= seq![
            (round_duration * 60 - 60) as u64,
            (round_duration * 60 - 30) as u64,
            (round_duration * 60 - 10) as u64,
        ]);
    }
    (alerts, total_seconds)
}

} // verus!

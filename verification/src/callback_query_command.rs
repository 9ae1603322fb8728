//! The commands carried inside interactive buttons, and their wire form:
//! a command word, the room identifier, and for a team pick the team index,
//! separated by single spaces.

use vstd::prelude::*;

use crate::digits::{dec_str, dec_val, is_dec_seq, parse_u32, parse_u64, u64_to_string};
use crate::room::RoomId;
use crate::text::str_eq;

verus! {

/// One action a button can ask of a room.
#[derive(Clone, Copy, PartialEq, Eq, Structural, Debug)]
pub enum CbQueryCommand {
    Join { team_index: usize },
    GetTeams,
    Play,
    Start,
    Correct,
    Skip,
}

/// The word that names a command on the wire.
pub open spec fn command_word(cmd: CbQueryCommand) -> Seq<char> {
    match cmd {
        CbQueryCommand::Join { .. } => "join"@,
        CbQueryCommand::GetTeams => "get_teams"@,
        CbQueryCommand::Play => "play"@,
        CbQueryCommand::Start => "start"@,
        CbQueryCommand::Correct => "correct"@,
        CbQueryCommand::Skip => "skip"@,
    }
}

/// The wire form of a command for a room.
pub open spec fn serialized(room_id: RoomId, cmd: CbQueryCommand) -> Seq<char> {
    command_word(cmd) + " "@ + dec_str(room_id.0 as nat) + (match cmd {
        CbQueryCommand::Join { team_index } => " "@ + dec_str(team_index as nat),
        _ => Seq::<char>::empty(),
    })
}

/// Renders a command for a room into its wire form.
pub fn serialize_command(room_id: RoomId, query_command: CbQueryCommand) -> (r: String)
    ensures
        r@ == serialized(room_id, query_command),
{
    let mut out = match query_command {
        CbQueryCommand::Join { .. } => String::from_str("join"),
        CbQueryCommand::GetTeams => String::from_str("get_teams"),
        CbQueryCommand::Play => String::from_str("play"),
        CbQueryCommand::Start => String::from_str("start"),
        CbQueryCommand::Correct => String::from_str("correct"),
        CbQueryCommand::Skip => String::from_str("skip"),
    };
    out.append(" ");
    let id_digits = u64_to_string(room_id.0 as u64);
    out.append(id_digits.as_str());
    if let CbQueryCommand::Join { team_index } = query_command {
        out.append(" ");
        let index_digits = u64_to_string(team_index as u64);
        out.append(index_digits.as_str());
    }
    proof {
        assert(out@ =~= serialized(room_id, query_command));
    }
    out
}

/// The first index at or past `from` holding a space, or the length.
pub open spec fn find_space(s: Seq<char>, from: int) -> int
    decreases s.len() - from when 0 <= from <= s.len()
{
    if from >= s.len() {
        s.len() as int
    } else if s[from] == ' ' {
        from
    } else {
        find_space(s, from + 1)
    }
}

proof fn lemma_find_space(s: Seq<char>, from: int)
    requires
        0 <= from <= s.len(),
    ensures
        from <= find_space(s, from) <= s.len(),
        find_space(s, from) < s.len() ==> s[find_space(s, from)] == ' ',
        forall|j: int| from <= j < find_space(s, from) ==> s[j] != ' ',
    decreases s.len() - from,
{
    if from < s.len() && s[from] != ' ' {
        lemma_find_space(s, from + 1);
    }
}

/// What a wire string means: the command word, the room number, and for
/// `join` a team index, split on the first two spaces.  A missing or
/// malformed number, or an unknown word, means nothing; trailing text is
/// ignored except as a `join` index.
pub open spec fn parsed(s: Seq<char>) -> Option<(RoomId, CbQueryCommand)> {
    let sp1 = find_space(s, 0);
    if sp1 >= s.len() {
        None
    } else {
        let cmd = s.take(sp1);
        let rest = s.skip(sp1 + 1);
        let sp2 = find_space(rest, 0);
        let num = rest.take(sp2);
        let tail = rest.skip(sp2 + 1);
        if !(is_dec_seq(num) && dec_val(num) <= u32::MAX) {
            None
        } else {
            let room_id = RoomId(dec_val(num) as u32);
            if cmd == "join"@ {
                if sp2 < rest.len() && is_dec_seq(tail) && dec_val(tail) <= usize::MAX {
                    Some(
                        (
                            room_id,
                            CbQueryCommand::Join { team_index: dec_val(tail) as usize },
                        ),
                    )
                } else {
                    None
                }
            } else if cmd == "get_teams"@ {
                Some((room_id, CbQueryCommand::GetTeams))
            } else if cmd == "play"@ {
                Some((room_id, CbQueryCommand::Play))
            } else if cmd == "start"@ {
                Some((room_id, CbQueryCommand::Start))
            } else if cmd == "correct"@ {
                Some((room_id, CbQueryCommand::Correct))
            } else if cmd == "skip"@ {
                Some((room_id, CbQueryCommand::Skip))
            } else {
                None
            }
        }
    }
}

fn find_space_exec(s: &str, from: usize) -> (r: usize)
    requires
        from <= s@.len(),
    ensures
        r == find_space(s@, from as int),
        from <= r <= s@.len(),
{
    proof {
        lemma_find_space(s@, from as int);
    }
    let n = s.unicode_len();
    let mut i = from;
    while i < n
        invariant
            from <= i <= n == s@.len(),
            forall|j: int| from <= j < i ==> s@[j] != ' ',
        decreases n - i,
    {
        if s.get_char(i) == ' ' {
            proof {
                lemma_find_space(s@, from as int);
            }
            return i;
        }
        i += 1;
    }
    proof {
        lemma_find_space(s@, from as int);
        if find_space(s@, from as int) < s@.len() {
            assert(s@[find_space(s@, from as int)] == ' ');
        }
    }
    n
}

/// Reads a wire string back into the command it carries, if any.
pub fn parse_command(data: String) -> (r: Option<(RoomId, CbQueryCommand)>)
    ensures
        r == parsed(data@),
{
    let s = data.as_str();
    let n = s.unicode_len();
    let sp1 = find_space_exec(s, 0);
    if sp1 >= n {
        return None;
    }
    let cmd = s.substring_char(0, sp1);
    let rest = s.substring_char(sp1 + 1, n);
    proof {
        assert(cmd@ == s@.take(sp1 as int));
        assert(rest@ == s@.skip(sp1 as int + 1));
    }
    let rest_len = rest.unicode_len();
    let sp2 = find_space_exec(rest, 0);
    let num = rest.substring_char(0, sp2);
    let tail = if sp2 < rest_len {
        rest.substring_char(sp2 + 1, rest_len)
    } else {
        ""
    };
    proof {
        assert(num@ == rest@.take(sp2 as int));
        if sp2 < rest_len {
            assert(tail@ == rest@.skip(sp2 as int + 1));
        }
    }
    let room_number = match parse_u32(num) {
        Some(v) => v,
        None => {
            return None;
        },
    };
    let room_id = RoomId(room_number);
    if str_eq(cmd, "join") {
        if sp2 >= rest_len {
            return None;
        }
        match parse_u64(tail) {
            Some(team_index) => {
                if team_index <= usize::MAX as u64 {
                    Some((room_id, CbQueryCommand::Join { team_index: team_index as usize }))
                } else {
                    None
                }
            },
            None => None,
        }
    } else if str_eq(cmd, "get_teams") {
        Some((room_id, CbQueryCommand::GetTeams))
    } else if str_eq(cmd, "play") {
        Some((room_id, CbQueryCommand::Play))
    } else if str_eq(cmd, "start") {
        Some((room_id, CbQueryCommand::Start))
    } else if str_eq(cmd, "correct") {
        Some((room_id, CbQueryCommand::Correct))
    } else if str_eq(cmd, "skip") {
        Some((room_id, CbQueryCommand::Skip))
    } else {
        None
    }
}


proof fn lemma_find_space_at(s: Seq<char>, k: int)
    requires
        0 <= k < s.len(),
        s[k] == ' ',
        forall|j: int| 0 <= j < k ==> s[j] != ' ',
    ensures
        find_space(s, 0) == k,
{
    lemma_find_space(s, 0);
    let r = find_space(s, 0);
    if r < k {
        assert(s[r] != ' ');
    }
    if r > k {
        assert(s[k] != ' ');
    }
}

proof fn lemma_find_space_none(s: Seq<char>)
    requires
        forall|j: int| 0 <= j < s.len() ==> s[j] != ' ',
    ensures
        find_space(s, 0) == s.len(),
{
    lemma_find_space(s, 0);
    if find_space(s, 0) < s.len() {
        assert(s[find_space(s, 0)] != ' ');
    }
}

proof fn lemma_dec_str_no_space(n: nat)
    ensures
        forall|j: int| 0 <= j < dec_str(n).len() ==> dec_str(n)[j] != ' ',
{
    crate::digits::lemma_dec_str_val(n);
    assert forall|j: int| 0 <= j < dec_str(n).len() implies dec_str(n)[j] != ' ' by {
        assert(crate::digits::is_digit_char(dec_str(n)[j]));
    }
}

proof fn lemma_command_word_props(cmd: CbQueryCommand)
    ensures
        command_word(cmd).len() > 0,
        forall|j: int| 0 <= j < command_word(cmd).len() ==> command_word(cmd)[j] != ' ',
        command_word(cmd) == "join"@ <==> cmd is Join,
        command_word(cmd) == "get_teams"@ <==> cmd is GetTeams,
        command_word(cmd) == "play"@ <==> cmd is Play,
        command_word(cmd) == "start"@ <==> cmd is Start,
        command_word(cmd) == "correct"@ <==> cmd is Correct,
        command_word(cmd) == "skip"@ <==> cmd is Skip,
{
    reveal_strlit("join");
    reveal_strlit("get_teams");
    reveal_strlit("play");
    reveal_strlit("start");
    reveal_strlit("correct");
    reveal_strlit("skip");
    assert("join"@ != "play"@) by {
        assert("play"@[0] == 'p' && "join"@[0] == 'j');
    }
    assert("join"@ != "skip"@) by {
        assert("skip"@[0] == 's' && "join"@[0] == 'j');
    }
    assert("play"@ != "skip"@) by {
        assert("skip"@[0] == 's' && "play"@[0] == 'p');
    }
    assert forall|j: int| 0 <= j < "join"@.len() implies "join"@[j] != ' ' by {
        if j == 0 {
            assert("join"@[0] == 'j');
        } else if j == 1 {
            assert("join"@[1] == 'o');
        } else if j == 2 {
            assert("join"@[2] == 'i');
        } else if j == 3 {
            assert("join"@[3] == 'n');
        }
    }
    assert forall|j: int| 0 <= j < "get_teams"@.len() implies "get_teams"@[j] != ' ' by {
        if j == 0 {
            assert("get_teams"@[0] == 'g');
        } else if j == 1 {
            assert("get_teams"@[1] == 'e');
        } else if j == 2 {
            assert("get_teams"@[2] == 't');
        } else if j == 3 {
            assert("get_teams"@[3] == '_');
        } else if j == 4 {
            assert("get_teams"@[4] == 't');
        } else if j == 5 {
            assert("get_teams"@[5] == 'e');
        } else if j == 6 {
            assert("get_teams"@[6] == 'a');
        } else if j == 7 {
            assert("get_teams"@[7] == 'm');
        } else if j == 8 {
            assert("get_teams"@[8] == 's');
        }
    }
    assert forall|j: int| 0 <= j < "play"@.len() implies "play"@[j] != ' ' by {
        if j == 0 {
            assert("play"@[0] == 'p');
        } else if j == 1 {
            assert("play"@[1] == 'l');
        } else if j == 2 {
            assert("play"@[2] == 'a');
        } else if j == 3 {
            assert("play"@[3] == 'y');
        }
    }
    assert forall|j: int| 0 <= j < "start"@.len() implies "start"@[j] != ' ' by {
        if j == 0 {
            assert("start"@[0] == 's');
        } else if j == 1 {
            assert("start"@[1] == 't');
        } else if j == 2 {
            assert("start"@[2] == 'a');
        } else if j == 3 {
            assert("start"@[3] == 'r');
        } else if j == 4 {
            assert("start"@[4] == 't');
        }
    }
    assert forall|j: int| 0 <= j < "correct"@.len() implies "correct"@[j] != ' ' by {
        if j == 0 {
            assert("correct"@[0] == 'c');
        } else if j == 1 {
            assert("correct"@[1] == 'o');
        } else if j == 2 {
            assert("correct"@[2] == 'r');
        } else if j == 3 {
            assert("correct"@[3] == 'r');
        } else if j == 4 {
            assert("correct"@[4] == 'e');
        } else if j == 5 {
            assert("correct"@[5] == 'c');
        } else if j == 6 {
            assert("correct"@[6] == 't');
        }
    }
    assert forall|j: int| 0 <= j < "skip"@.len() implies "skip"@[j] != ' ' by {
        if j == 0 {
            assert("skip"@[0] == 's');
        } else if j == 1 {
            assert("skip"@[1] == 'k');
        } else if j == 2 {
            assert("skip"@[2] == 'i');
        } else if j == 3 {
            assert("skip"@[3] == 'p');
        }
    }
}

/// Round trip: parsing a rendered command gives exactly the command and
/// room back, for every team index that fits the wire's number range.
pub proof fn lemma_parse_serialize(room_id: RoomId, cmd: CbQueryCommand)
    ensures
        parsed(serialized(room_id, cmd)) == Some((room_id, cmd)),
{
    lemma_command_word_props(cmd);
    reveal_strlit(" ");
    let w = command_word(cmd);
    let d = dec_str(room_id.0 as nat);
    let s = serialized(room_id, cmd);
    crate::digits::lemma_dec_str_val(room_id.0 as nat);
    lemma_dec_str_no_space(room_id.0 as nat);
    assert(" "@.len() == 1 && " "@[0] == ' ');
    match cmd {
        CbQueryCommand::Join { team_index } => {
            let d2 = dec_str(team_index as nat);
            crate::digits::lemma_dec_str_val(team_index as nat);
            lemma_dec_str_no_space(team_index as nat);
            assert(s =~= w + " "@ + d + " "@ + d2);
            assert(s[w.len() as int] == ' ');
            lemma_find_space_at(s, w.len() as int);
            let sp1 = find_space(s, 0);
            assert(s.take(sp1) =~= w);
            let rest = s.skip(sp1 + 1);
            assert(rest =~= d + " "@ + d2);
            assert(rest[d.len() as int] == ' ');
            lemma_find_space_at(rest, d.len() as int);
            let sp2 = find_space(rest, 0);
            assert(rest.take(sp2) =~= d);
            assert(rest.skip(sp2 + 1) =~= d2);
            assert(dec_val(d) == room_id.0);
            assert(dec_val(d2) == team_index);
            assert(RoomId(dec_val(d) as u32) == room_id);
            assert(dec_val(d2) as usize == team_index);
        },
        _ => {
            assert(s =~= w + " "@ + d);
            assert(s[w.len() as int] == ' ');
            lemma_find_space_at(s, w.len() as int);
            let sp1 = find_space(s, 0);
            assert(s.take(sp1) =~= w);
            let rest = s.skip(sp1 + 1);
            assert(rest =~= d);
            lemma_find_space_none(rest);
            let sp2 = find_space(rest, 0);
            assert(rest.take(sp2) =~= d);
            assert(dec_val(d) == room_id.0);
            assert(RoomId(dec_val(d) as u32) == room_id);
        },
    }
}

} // verus!

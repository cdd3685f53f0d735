//! Verified text helpers: decimal rendering of room ids, parsing of the
//! join request line, and the protocol's message texts.

use crate::ChatError;
use vstd::prelude::*;

verus! {

/// The decimal digit character for `d` (meaningful for `0 <= d < 10`).
pub open spec fn digit_char(d: int) -> char
    recommends
        0 <= d < 10,
{
    if d == 0 {
        '0'
    } else if d == 1 {
        '1'
    } else if d == 2 {
        '2'
    } else if d == 3 {
        '3'
    } else if d == 4 {
        '4'
    } else if d == 5 {
        '5'
    } else if d == 6 {
        '6'
    } else if d == 7 {
        '7'
    } else if d == 8 {
        '8'
    } else {
        '9'
    }
}

/// The decimal rendering of `n`, most significant digit first.
pub open spec fn dec_str(n: nat) -> Seq<char>
    decreases n,
{
    if n < 10 {
        seq![digit_char(n as int)]
    } else {
        dec_str(n / 10).push(digit_char((n % 10) as int))
    }
}

/// The one-character string for the digit `d`.
fn digit_str(d: u32) -> (r: &'static str)
    requires
        d < 10,
    ensures
        r@ == seq![digit_char(d as int)],
{
    proof {
        reveal_strlit("0");
        reveal_strlit("1");
        reveal_strlit("2");
        reveal_strlit("3");
        reveal_strlit("4");
        reveal_strlit("5");
        reveal_strlit("6");
        reveal_strlit("7");
        reveal_strlit("8");
        reveal_strlit("9");
    }
    let r = match d {
        0 => "0",
        1 => "1",
        2 => "2",
        3 => "3",
        4 => "4",
        5 => "5",
        6 => "6",
        7 => "7",
        8 => "8",
        _ => "9",
    };
    proof {
        assert(r@ =~= seq![digit_char(d as int)]);
    }
    r
}

/// Renders `n` in decimal, most significant digit first.
pub fn u32_to_string(n: u32) -> (r: String)
    ensures
        r@ == dec_str(n as nat),
    decreases n,
{
    if n < 10 {
        String::from_str(digit_str(n))
    } else {
        let prefix = u32_to_string(n / 10);
        let r = prefix.concat(digit_str(n % 10));
        proof {
            assert(r@ =~= dec_str(n as nat));
        }
        r
    }
}

/// True iff `c` is a decimal digit.
pub open spec fn is_digit(c: char) -> bool {
    48 <= c as int <= 57
}

/// The numeric value of the digit character `c`.
pub open spec fn digit_val(c: char) -> int {
    c as int - 48
}

/// True iff every character of `s` is a decimal digit.
pub open spec fn all_digits(s: Seq<char>) -> bool {
    forall|i: int| 0 <= i < s.len() ==> is_digit(#[trigger] s[i])
}

/// The numeric value of the digit string `s`, most significant digit first.
pub open spec fn dec_val(s: Seq<char>) -> int
    decreases s.len(),
{
    if s.len() == 0 {
        0
    } else {
        dec_val(s.drop_last()) * 10 + digit_val(s.last())
    }
}

proof fn lemma_dec_val_nonneg(s: Seq<char>)
    requires
        all_digits(s),
    ensures
        dec_val(s) >= 0,
    decreases s.len(),
{
    if s.len() > 0 {
        assert(all_digits(s.drop_last()));
        lemma_dec_val_nonneg(s.drop_last());
    }
}

proof fn lemma_dec_val_take_step(s: Seq<char>, i: int)
    requires
        0 <= i < s.len(),
    ensures
        dec_val(s.take(i + 1)) == dec_val(s.take(i)) * 10 + digit_val(s[i]),
{
    assert(s.take(i + 1).drop_last() =~= s.take(i));
    assert(s.take(i + 1).last() == s[i]);
}

proof fn lemma_dec_val_grows(s: Seq<char>, i: int)
    requires
        all_digits(s),
        0 <= i <= s.len(),
    ensures
        dec_val(s) >= dec_val(s.take(i)),
    decreases s.len() - i,
{
    if i == s.len() {
        assert(s.take(i) =~= s);
    } else {
        lemma_dec_val_take_step(s, i);
        assert(all_digits(s.take(i)));
        lemma_dec_val_nonneg(s.take(i));
        lemma_dec_val_grows(s, i + 1);
    }
}

/// Parses `s` as a non-negative decimal integer.  Succeeds exactly when
/// `s` is non-empty, consists of digits alone, and its value fits in `u32`.
pub fn parse_u32(s: &str) -> (r: Option<u32>)
    ensures
        r is Some <==> s@.len() > 0 && all_digits(s@) && dec_val(s@) <= u32::MAX,
        r is Some ==> r->0 == dec_val(s@),
{
    let len = s.unicode_len();
    if len == 0 {
        return None;
    }
    let mut acc: u32 = 0;
    let mut i: usize = 0;
    while i < len
        invariant
            0 <= i <= len,
            len == s@.len(),
            all_digits(s@.take(i as int)),
            acc == dec_val(s@.take(i as int)),
        decreases len - i,
    {
        let c = s.get_char(i);
        let v = c as u32;
        if v < 48 || v > 57 {
            assert(!is_digit(s@[i as int]));
            return None;
        }
        let d = v - 48;
        proof {
            lemma_dec_val_take_step(s@, i as int);
            assert(all_digits(s@.take(i as int + 1)));
        }
        if acc > (u32::MAX - d) / 10 {
            proof {
                if all_digits(s@) {
                    assert(acc * 10 + d > u32::MAX);
                    lemma_dec_val_grows(s@, i as int + 1);
                }
            }
            return None;
        }
        acc = acc * 10 + d;
        i = i + 1;
    }
    proof {
        assert(s@.take(len as int) =~= s@);
    }
    Some(acc)
}

/// True iff `c` is one of the white-space characters the protocol trims.
pub open spec fn is_space(c: char) -> bool {
    c == ' ' || c == '\t' || c == '\r' || c == '\n'
}

/// `s` with leading white space removed.
pub open spec fn trim_front(s: Seq<char>) -> Seq<char>
    decreases s.len(),
{
    if s.len() > 0 && is_space(s.first()) {
        trim_front(s.drop_first())
    } else {
        s
    }
}

/// `s` with trailing white space removed.
pub open spec fn trim_back(s: Seq<char>) -> Seq<char>
    decreases s.len(),
{
    if s.len() > 0 && is_space(s.last()) {
        trim_back(s.drop_last())
    } else {
        s
    }
}

/// `s` with white space removed from both ends.
pub open spec fn trimmed(s: Seq<char>) -> Seq<char> {
    trim_back(trim_front(s))
}

fn is_space_char(c: char) -> (r: bool)
    ensures
        r == is_space(c),
{
    c == ' ' || c == '\t' || c == '\r' || c == '\n'
}

/// Removes white space from both ends of `s`.
pub fn trim_spaces(s: &str) -> (r: String)
    ensures
        r@ == trimmed(s@),
{
    let len = s.unicode_len();
    proof {
        assert(s@.subrange(0, len as int) =~= s@);
    }
    let mut lo: usize = 0;
    while lo < len && is_space_char(s.get_char(lo))
        invariant
            0 <= lo <= len,
            len == s@.len(),
            trim_front(s@) == trim_front(s@.subrange(lo as int, len as int)),
        decreases len - lo,
    {
        proof {
            assert(s@.subrange(lo as int, len as int).drop_first() =~= s@.subrange(
                lo as int + 1,
                len as int,
            ));
        }
        lo = lo + 1;
    }
    proof {
        assert(trim_front(s@) == s@.subrange(lo as int, len as int));
    }
    let mut hi: usize = len;
    while hi > lo && is_space_char(s.get_char(hi - 1))
        invariant
            lo <= hi <= len,
            len == s@.len(),
            trim_front(s@) == s@.subrange(lo as int, len as int),
            trim_back(s@.subrange(lo as int, len as int)) == trim_back(
                s@.subrange(lo as int, hi as int),
            ),
        decreases hi,
    {
        proof {
            assert(s@.subrange(lo as int, hi as int).drop_last() =~= s@.subrange(
                lo as int,
                hi as int - 1,
            ));
        }
        hi = hi - 1;
    }
    let r = String::from_str(s.substring_char(lo, hi));
    proof {
        assert(trim_back(s@.subrange(lo as int, hi as int)) == s@.subrange(lo as int, hi as int));
    }
    r
}

/// The first index at or after `i` where `s` holds a space, if any.
pub open spec fn first_space_at(s: Seq<char>, i: int) -> Option<int>
    decreases s.len() - i,
{
    if !(0 <= i < s.len()) {
        None
    } else if s[i] == ' ' {
        Some(i)
    } else {
        first_space_at(s, i + 1)
    }
}

/// The room id and display name held in the join line `s`: the text
/// before the first space read as a decimal id, the remainder of the
/// line, trimmed, as the name.  `None` when the line has no space or the
/// id part is not the decimal form of a `u32`.
pub open spec fn join_request(s: Seq<char>) -> Option<(u32, Seq<char>)> {
    match first_space_at(s, 0) {
        None => None,
        Some(i) => {
            let id_part = s.take(i);
            if id_part.len() > 0 && all_digits(id_part) && dec_val(id_part) <= u32::MAX {
                Some((dec_val(id_part) as u32, trimmed(s.subrange(i + 1, s.len() as int))))
            } else {
                None
            }
        },
    }
}

/// Parses a join line of the form `"<roomId> <displayName>"`.
pub fn parse_join_request(line: &str) -> (r: Result<(u32, String), ChatError>)
    ensures
        match r {
            Ok(p) => join_request(line@) == Some((p.0, p.1@)),
            Err(e) => e == ChatError::MalformedJoinRequest && join_request(line@) is None,
        },
{
    let len = line.unicode_len();
    let mut i: usize = 0;
    while i < len && line.get_char(i) != ' '
        invariant
            0 <= i <= len,
            len == line@.len(),
            first_space_at(line@, 0) == first_space_at(line@, i as int),
        decreases len - i,
    {
        i = i + 1;
    }
    if i == len {
        return Err(ChatError::MalformedJoinRequest);
    }
    let id_part = line.substring_char(0, i);
    proof {
        assert(id_part@ =~= line@.take(i as int));
    }
    match parse_u32(id_part) {
        None => Err(ChatError::MalformedJoinRequest),
        Some(id) => {
            let rest = line.substring_char(i + 1, len);
            let name = trim_spaces(rest);
            Ok((id, name))
        },
    }
}

/// `"<name> > <text>"`: a chat message as the other members see it.
pub fn chat_message(name: &str, body: &str) -> (r: String)
    ensures
        r@ == name@ + " > "@ + body@,
{
    let r = String::from_str(name).concat(" > ").concat(body);
    proof {
        assert(r@ =~= name@ + " > "@ + body@);
    }
    r
}

/// `"<name> joined the room <id>"`: the announcement after a join.
pub fn join_announcement(name: &str, id: u32) -> (r: String)
    ensures
        r@ == name@ + " joined the room "@ + dec_str(id as nat),
{
    let r = String::from_str(name).concat(" joined the room ").concat(u32_to_string(id).as_str());
    proof {
        assert(r@ =~= name@ + " joined the room "@ + dec_str(id as nat));
    }
    r
}

/// `"<name> left the room"`: the announcement after a disconnect.
pub fn leave_announcement(name: &str) -> (r: String)
    ensures
        r@ == name@ + " left the room"@,
{
    let r = String::from_str(name).concat(" left the room");
    proof {
        assert(r@ =~= name@ + " left the room"@);
    }
    r
}

/// Room ids joined by `", "`.
pub open spec fn ids_text(ids: Seq<u32>) -> Seq<char>
    decreases ids.len(),
{
    if ids.len() == 0 {
        Seq::empty()
    } else if ids.len() == 1 {
        dec_str(ids[0] as nat)
    } else {
        ids_text(ids.drop_last()) + ", "@ + dec_str(ids.last() as nat)
    }
}

/// One `"- <name>"` line per member, separated by line breaks.
pub open spec fn member_lines(names: Seq<Seq<char>>) -> Seq<char>
    decreases names.len(),
{
    if names.len() == 0 {
        Seq::empty()
    } else if names.len() == 1 {
        "- "@ + names[0]
    } else {
        member_lines(names.drop_last()) + "\n- "@ + names.last()
    }
}

/// The post-join room description: the id line, then the member list.
pub open spec fn room_info_text(id: u32, names: Seq<Seq<char>>) -> Seq<char> {
    let header = "Room ID: "@ + dec_str(id as nat) + "\n"@;
    if names.len() == 0 {
        header
    } else {
        header + "Members in this room\n"@ + member_lines(names)
    }
}

/// The greeting sent on connect, listing the registered room ids.
pub open spec fn welcome_text(ids: Seq<u32>) -> Seq<char> {
    "Welcome to the server! Select the room you want to connect.\nAvailable rooms: "@ + ids_text(
        ids,
    )
}

} // verus!

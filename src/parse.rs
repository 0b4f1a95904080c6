use vstd::prelude::*;
use vstd::string::{StrSliceExecFns, StringExecFns};

use crate::errors::GameError;

verus! {

/// Whether `c` is white space, as Unicode's White_Space property lists it.
pub open spec fn is_whitespace(c: char) -> bool {
    let u = c as u32;
    (0x9 <= u <= 0xd) || u == 0x20 || u == 0x85 || u == 0xa0 || u == 0x1680 || (0x2000 <= u
        <= 0x200a) || u == 0x2028 || u == 0x2029 || u == 0x202f || u == 0x205f || u == 0x3000
}

/// Whether `c` is one of the ASCII digits `0` to `9`.
pub open spec fn is_digit(c: char) -> bool {
    '0' <= c <= '9'
}

pub open spec fn digit_value(c: char) -> nat {
    (c as u32 - '0' as u32) as nat
}

/// The words of `s` read so far, and the word being read.
pub open spec fn split_state(s: Seq<char>) -> (Seq<Seq<char>>, Seq<char>)
    decreases s.len(),
{
    if s.len() == 0 {
        (seq![], seq![])
    } else {
        let (done, cur) = split_state(s.drop_last());
        if is_whitespace(s.last()) {
            if cur.len() > 0 {
                (done.push(cur), seq![])
            } else {
                (done, cur)
            }
        } else {
            (done, cur.push(s.last()))
        }
    }
}

/// The maximal runs of `s` without white space, in order.
pub open spec fn words(s: Seq<char>) -> Seq<Seq<char>> {
    let (done, cur) = split_state(s);
    if cur.len() > 0 {
        done.push(cur)
    } else {
        done
    }
}

/// `s` without the colons at its end.
pub open spec fn trim_end_colons(s: Seq<char>) -> Seq<char>
    decreases s.len(),
{
    if s.len() > 0 && s.last() == ':' {
        trim_end_colons(s.drop_last())
    } else {
        s
    }
}

/// The number that the digits `d` write in base ten.
pub open spec fn decimal_value(d: Seq<char>) -> nat
    decreases d.len(),
{
    if d.len() == 0 {
        0
    } else {
        10 * decimal_value(d.drop_last()) + digit_value(d.last())
    }
}

/// `t` without one leading plus sign.
pub open spec fn unsigned_digits(t: Seq<char>) -> Seq<char> {
    if t.len() > 0 && t[0] == '+' {
        t.drop_first()
    } else {
        t
    }
}

/// The `usize` that `t` writes in base ten, with an optional leading plus
/// sign; `None` when `t` has no digit, holds another character, or writes a
/// number that does not fit.
pub open spec fn parse_usize_spec(t: Seq<char>) -> Option<usize> {
    let d = unsigned_digits(t);
    if d.len() == 0 || exists|i: int| 0 <= i < d.len() && !is_digit(#[trigger] d[i]) {
        None
    } else if decimal_value(d) > usize::MAX {
        None
    } else {
        Some(decimal_value(d) as usize)
    }
}

/// The strings of `v`, as sequences of characters.
pub open spec fn words_view(v: Seq<Vec<char>>) -> Seq<Seq<char>> {
    v.map_values(|w: Vec<char>| w@)
}

fn is_whitespace_char(c: char) -> (r: bool)
    ensures
        r == is_whitespace(c),
{
    let u = c as u32;
    (0x9 <= u && u <= 0xd) || u == 0x20 || u == 0x85 || u == 0xa0 || u == 0x1680 || (0x2000 <= u
        && u <= 0x200a) || u == 0x2028 || u == 0x2029 || u == 0x202f || u == 0x205f || u == 0x3000
}

/// The characters of `s`.
pub fn chars_of(s: &str) -> (r: Vec<char>)
    ensures
        r@ == s@,
{
    let n = s.unicode_len();
    let mut chars: Vec<char> = Vec::new();
    let mut i: usize = 0;
    while i < n
        invariant
            n == s@.len(),
            i <= n,
            chars@ == s@.take(i as int),
        decreases n - i,
    {
        chars.push(s.get_char(i));
        i = i + 1;
        assert(chars@ =~= s@.take(i as int));
    }
    assert(s@.take(n as int) =~= s@);
    chars
}

/// The words of `s`, split at white space.
pub fn split_whitespace(s: &str) -> (r: Vec<Vec<char>>)
    ensures
        words_view(r@) == words(s@),
{
    let chars = chars_of(s);
    split_chars(&chars)
}

/// The words of `t`, split at white space.
pub fn split_chars(t: &Vec<char>) -> (r: Vec<Vec<char>>)
    ensures
        words_view(r@) == words(t@),
{
    let n = t.len();
    let mut done: Vec<Vec<char>> = Vec::new();
    let mut cur: Vec<char> = Vec::new();
    let mut i: usize = 0;
    while i < n
        invariant
            n == t@.len(),
            i <= n,
            (words_view(done@), cur@) == split_state(t@.take(i as int)),
        decreases n - i,
    {
        let c = t[i];
        let ghost prefix = t@.take(i as int);
        assert(t@.take(i + 1).drop_last() =~= prefix);
        assert(t@.take(i + 1).last() == c);
        if is_whitespace_char(c) {
            if cur.len() > 0 {
                let ghost old_done = done@;
                done.push(cur);
                cur = Vec::new();
                assert(words_view(done@) =~= words_view(old_done).push(split_state(prefix).1));
            }
        } else {
            cur.push(c);
        }
        i = i + 1;
    }
    assert(t@.take(n as int) =~= t@);
    if cur.len() > 0 {
        let ghost old_done = done@;
        let ghost last = cur@;
        done.push(cur);
        assert(words_view(done@) =~= words_view(old_done).push(last));
    }
    done
}

/// `t` without the colons at its end.
pub fn trim_colons(t: &Vec<char>) -> (r: Vec<char>)
    ensures
        r@ == trim_end_colons(t@),
{
    let mut end = t.len();
    assert(t@.take(end as int) =~= t@);
    while end > 0 && t[end - 1] == ':'
        invariant
            end <= t@.len(),
            trim_end_colons(t@) == trim_end_colons(t@.take(end as int)),
        decreases end,
    {
        assert(t@.take(end as int).drop_last() =~= t@.take(end - 1));
        end = end - 1;
    }
    let mut r: Vec<char> = Vec::new();
    let mut i: usize = 0;
    while i < end
        invariant
            end <= t@.len(),
            i <= end,
            r@ == t@.take(i as int),
        decreases end - i,
    {
        r.push(t[i]);
        i = i + 1;
        assert(r@ =~= t@.take(i as int));
    }
    proof {
        let p = t@.take(end as int);
        if end > 0 {
            assert(p.last() == t@[end - 1]);
        }
        assert(trim_end_colons(p) == p);
    }
    r
}

proof fn lemma_decimal_value_grows(d: Seq<char>, k: int)
    requires
        0 <= k <= d.len(),
    ensures
        decimal_value(d.take(k)) <= decimal_value(d),
    decreases d.len() - k,
{
    if k < d.len() {
        lemma_decimal_value_grows(d, k + 1);
        assert(d.take(k + 1).drop_last() =~= d.take(k));
    } else {
        assert(d.take(k) =~= d);
    }
}

/// Reads the `usize` that `t` writes in base ten, as `str::parse` does; the
/// error says what is wrong.
pub fn parse_usize(t: &Vec<char>) -> (r: Result<usize, String>)
    ensures
        r is Ok == parse_usize_spec(t@) is Some,
        r matches Ok(v) ==> parse_usize_spec(t@) == Some(v),
{
    let n = t.len();
    let start: usize = if n > 0 && t[0] == '+' { 1 } else { 0 };
    let ghost d = unsigned_digits(t@);
    assert(d =~= t@.skip(start as int));
    if n == 0 {
        return Err(String::from_str("cannot parse integer from empty string"));
    }
    if start == n {
        return Err(String::from_str("invalid digit found in string"));
    }
    let mut value: u128 = 0;
    let mut i: usize = start;
    while i < n
        invariant
            n == t@.len(),
            start <= i <= n,
            d == t@.skip(start as int),
            d == unsigned_digits(t@),
            forall|j: int| 0 <= j < i - start ==> is_digit(#[trigger] d[j]),
            value == decimal_value(d.take(i - start)),
            value <= usize::MAX,
        decreases n - i,
    {
        let c = t[i];
        assert(d[i - start] == c);
        assert(d.len() == n - start);
        if !('0' <= c && c <= '9') {
            assert(!is_digit(d[i - start]));
            return Err(String::from_str("invalid digit found in string"));
        }
        let digit = (c as u32 - '0' as u32) as u128;
        let ghost k = i - start;
        assert(d.take(k + 1).drop_last() =~= d.take(k));
        assert(d.take(k + 1).last() == c);
        assert(decimal_value(d.take(k + 1)) == 10 * decimal_value(d.take(k)) + digit_value(c));
        let next = value * 10 + digit;
        if next > usize::MAX as u128 {
            proof {
                lemma_decimal_value_grows(d, k + 1);
            }
            return Err(String::from_str("number too large to fit in target type"));
        }
        value = next;
        i = i + 1;
    }
    assert(d.take(n - start) =~= d);
    Ok(value as usize)
}

/// `r` is a `ParsePlayerIds` error with message `msg`.
pub open spec fn player_ids_error(r: Result<u8, GameError>, msg: Seq<char>) -> bool {
    r matches Err(GameError::ParsePlayerIds(m)) && m@ == msg
}

/// The identity of the local player, read from the character at index 10
/// of the first line, the digit after `exec p`: 1 or 2.
pub fn get_ids(line: String) -> (r: Result<u8, GameError>)
    ensures
        line@.len() <= 10 ==> player_ids_error(r, "line too short"@),
        line@.len() > 10 && !is_digit(line@[10]) ==> player_ids_error(
            r,
            "invalid first line: character at 11th position is not a digit"@,
        ),
        line@.len() > 10 && line@[10] == '1' ==> r == Ok::<u8, GameError>(1),
        line@.len() > 10 && line@[10] == '2' ==> r == Ok::<u8, GameError>(2),
        line@.len() > 10 && is_digit(line@[10]) && line@[10] != '1' && line@[10] != '2'
            ==> player_ids_error(r, "wrong digit"@),
{
    let s = line.as_str();
    if s.unicode_len() <= 10 {
        return Err(GameError::ParsePlayerIds(String::from_str("line too short")));
    }
    let c = s.get_char(10);
    if !('0' <= c && c <= '9') {
        return Err(
            GameError::ParsePlayerIds(
                String::from_str("invalid first line: character at 11th position is not a digit"),
            ),
        );
    }
    if c == '1' {
        Ok(1)
    } else if c == '2' {
        Ok(2)
    } else {
        Err(GameError::ParsePlayerIds(String::from_str("wrong digit")))
    }
}

/// The two numbers of a header line such as `Anfield 20 15:` or
/// `Piece 4 1:`: its second word and its third without the closing colons.
pub fn get_width_and_height(line: String) -> (r: Result<[usize; 2], GameError>)
    ensures
        ({
            let ws = words(line@);
            &&& r is Ok == (ws.len() >= 3 && parse_usize_spec(ws[1]) is Some && parse_usize_spec(
                trim_end_colons(ws[2]),
            ) is Some)
            &&& r matches Ok(dims) ==> Some(dims@[0]) == parse_usize_spec(ws[1]) && Some(dims@[1])
                == parse_usize_spec(trim_end_colons(ws[2]))
            &&& r matches Err(e) ==> e is ParseDimensions
        }),
{
    let parts = split_whitespace(line.as_str());
    let ghost ws = words(line@);
    if parts.len() < 3 {
        return Err(GameError::ParseDimensions(String::from_str("missing dimension")));
    }
    assert(parts@[1]@ == ws[1]);
    assert(parts@[2]@ == ws[2]);
    let first = match parse_usize(&parts[1]) {
        Ok(v) => v,
        Err(e) => {
            return Err(GameError::ParseDimensions(e));
        },
    };
    let trimmed = trim_colons(&parts[2]);
    let second = match parse_usize(&trimmed) {
        Ok(v) => v,
        Err(e) => {
            return Err(GameError::ParseDimensions(e));
        },
    };
    Ok([first, second])
}

} // verus!

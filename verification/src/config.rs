//! Configuration.

use vstd::prelude::*;
use crate::text::{chars_of, has_char, parse_unsigned, same_text, slice_text, string_of_range, unsigned};

verus! {

#[derive(Debug, Clone)]
pub struct Config {
    pub port: u16,
    pub proxy_base: String,
    pub cache_max_capacity: u64,
    pub upstream_timeout_secs: u64,
    pub log_level: String,
    pub transmux_ts: bool,
}

/// A number from a variable; the default where the variable is not set or is no number in range.
pub open spec fn number_or(var: Option<Seq<char>>, max: nat, default: nat) -> nat {
    match var {
        Some(text) => match unsigned(text, max) {
            Some(n) => n,
            None => default,
        },
        None => default,
    }
}

/// A text from a variable, or the default.
pub open spec fn text_or(var: Option<Seq<char>>, default: Seq<char>) -> Seq<char> {
    match var {
        Some(text) => text,
        None => default,
    }
}

fn read_number(var: Option<&str>, max: u64, default: u64) -> (n: u64)
    ensures
        n == number_or(slice_text(var), max as nat, default as nat),
{
    match var {
        Some(text) => match parse_unsigned(text, max) {
            Some(n) => n,
            None => default,
        },
        None => default,
    }
}

fn read_text(var: Option<&str>, default: &str) -> (r: String)
    ensures
        r@ == text_or(slice_text(var), default@),
{
    match var {
        Some(text) => text.to_owned(),
        None => default.to_owned(),
    }
}

/// The values of the variables that configure the proxy; `None` where one is not set.
pub struct ConfigVars<'a> {
    /// `PORT`
    pub port: Option<&'a str>,
    /// `PROXY_BASE`
    pub proxy_base: Option<&'a str>,
    /// `CACHE_MAX_CAPACITY`
    pub cache_max_capacity: Option<&'a str>,
    /// `UPSTREAM_TIMEOUT_SECS`
    pub upstream_timeout_secs: Option<&'a str>,
    /// `LOG_LEVEL`
    pub log_level: Option<&'a str>,
    /// `TRANSMUX_TS`
    pub transmux_ts: Option<&'a str>,
}

impl Config {
    /// Reads the configuration from the values of its variables.
    pub fn from_vars(vars: &ConfigVars<'_>) -> (r: Config)
        ensures
            r.port == number_or(slice_text(vars.port), u16::MAX as nat, 3100),
            r.proxy_base@ == text_or(slice_text(vars.proxy_base), Seq::empty()),
            r.cache_max_capacity == number_or(
                slice_text(vars.cache_max_capacity),
                u64::MAX as nat,
                500,
            ),
            r.upstream_timeout_secs == number_or(
                slice_text(vars.upstream_timeout_secs),
                u64::MAX as nat,
                15,
            ),
            r.log_level@ == text_or(slice_text(vars.log_level), "info"@),
            r.transmux_ts == match vars.transmux_ts {
                Some(text) => text@ == "true"@ || text@ == "1"@,
                None => false,
            },
    {
        proof {
            reveal_strlit("");
            assert(""@ == Seq::<char>::empty());
        }
        Config {
            port: read_number(vars.port, u16::MAX as u64, 3100) as u16,
            proxy_base: read_text(vars.proxy_base, ""),
            cache_max_capacity: read_number(vars.cache_max_capacity, u64::MAX, 500),
            upstream_timeout_secs: read_number(vars.upstream_timeout_secs, u64::MAX, 15),
            log_level: read_text(vars.log_level, "info"),
            transmux_ts: match vars.transmux_ts {
                Some(text) => same_text(text, "true") || same_text(text, "1"),
                None => false,
            },
        }
    }
}

// ---------------------------------------------------------------------------------------------
// Lines of an environment file
// ---------------------------------------------------------------------------------------------

/// `c` has the Unicode property White_Space.
pub open spec fn is_white_space(c: char) -> bool {
    ||| '\u{9}' <= c <= '\u{d}'
    ||| c == ' '
    ||| c == '\u{85}'
    ||| c == '\u{a0}'
    ||| c == '\u{1680}'
    ||| '\u{2000}' <= c <= '\u{200a}'
    ||| c == '\u{2028}'
    ||| c == '\u{2029}'
    ||| c == '\u{202f}'
    ||| c == '\u{205f}'
    ||| c == '\u{3000}'
}

/// Whether `c` has the Unicode property White_Space.
pub fn white_space(c: char) -> (b: bool)
    ensures
        b == is_white_space(c),
{
    ('\u{9}' <= c && c <= '\u{d}') || c == ' ' || c == '\u{85}' || c == '\u{a0}' || c == '\u{1680}' || ('\u{2000}' <= c
        && c <= '\u{200a}') || c == '\u{2028}' || c == '\u{2029}' || c == '\u{202f}' || c == '\u{205f}' || c
        == '\u{3000}'
}

/// What is trimmed: a given character, or white space.
pub open spec fn is_trimmed(c: char, quote: Option<char>) -> bool {
    match quote {
        Some(q) => c == q,
        None => is_white_space(c),
    }
}

/// `s` without what is trimmed at its start.
pub open spec fn trim_start(s: Seq<char>, quote: Option<char>) -> Seq<char>
    decreases s.len(),
{
    if s.len() > 0 && is_trimmed(s[0], quote) {
        trim_start(s.skip(1), quote)
    } else {
        s
    }
}

/// `s` without what is trimmed at its end.
pub open spec fn trim_end(s: Seq<char>, quote: Option<char>) -> Seq<char>
    decreases s.len(),
{
    if s.len() > 0 && is_trimmed(s.last(), quote) {
        trim_end(s.drop_last(), quote)
    } else {
        s
    }
}

/// `s` without white space at its ends.
pub open spec fn trimmed(s: Seq<char>) -> Seq<char> {
    trim_end(trim_start(s, None), None)
}

/// `s` without a given character at its ends.
pub open spec fn unquoted(s: Seq<char>, quote: char) -> Seq<char> {
    trim_end(trim_start(s, Some(quote)), Some(quote))
}

/// The first place of `c` in `s`.
pub open spec fn position(s: Seq<char>, c: char) -> Option<int>
    decreases s.len(),
{
    if s.len() == 0 {
        None
    } else if s[0] == c {
        Some(0)
    } else {
        match position(s.skip(1), c) {
            Some(i) => Some(i + 1),
            None => None,
        }
    }
}

/// A variable can have this name and this value: there is a name, and neither holds a NUL character.
pub open spec fn can_be_set(name: Seq<char>, value: Seq<char>) -> bool {
    name.len() > 0 && !name.contains('\0') && !value.contains('\0')
}

/// The variable that a line sets: its name and its value. Empty lines, comments, and malformed lines set
/// none: those without an equals sign, without a name, or with a NUL character in the name or the
/// value.
pub open spec fn assignment(line: Seq<char>) -> Option<(Seq<char>, Seq<char>)> {
    let text = trimmed(line);
    if text.len() == 0 || text[0] == '#' {
        None
    } else {
        match position(text, '=') {
            Some(i) => {
                let name = trimmed(text.take(i));
                let value = unquoted(unquoted(trimmed(text.skip(i + 1)), '"'), '\'');
                if can_be_set(name, value) {
                    Some((name, value))
                } else {
                    None
                }
            },
            None => None,
        }
    }
}

fn drops(c: char, quote: Option<char>) -> (b: bool)
    ensures
        b == is_trimmed(c, quote),
{
    match quote {
        Some(q) => c == q,
        None => white_space(c),
    }
}

/// The range that is left of `v[from..to]` when it is trimmed at both ends.
fn trim_range(v: &Vec<char>, from: usize, to: usize, quote: Option<char>) -> (r: (usize, usize))
    requires
        from <= to <= v@.len(),
    ensures
        from <= r.0 <= r.1 <= to,
        v@.subrange(r.0 as int, r.1 as int) == trim_end(
            trim_start(v@.subrange(from as int, to as int), quote),
            quote,
        ),
{
    let ghost whole = v@.subrange(from as int, to as int);
    let mut start: usize = from;
    while start < to && drops(v[start], quote)
        invariant
            from <= start <= to <= v@.len(),
            trim_start(whole, quote) == trim_start(v@.subrange(start as int, to as int), quote),
        decreases to - start,
    {
        assert(v@.subrange(start as int, to as int).skip(1) == v@.subrange(start + 1, to as int));
        start += 1;
    }
    let ghost front = v@.subrange(start as int, to as int);
    assert(trim_start(whole, quote) == front);
    let mut end: usize = to;
    while start < end && drops(v[end - 1], quote)
        invariant
            start <= end <= to <= v@.len(),
            trim_end(front, quote) == trim_end(v@.subrange(start as int, end as int), quote),
        decreases end - start,
    {
        assert(v@.subrange(start as int, end as int).drop_last() == v@.subrange(start as int, end - 1));
        end -= 1;
    }
    assert(trim_end(front, quote) == v@.subrange(start as int, end as int));
    (start, end)
}

/// The variable that a line of an environment file sets.
pub fn parse_env_line(line: &str) -> (r: Option<(String, String)>)
    ensures
        match r {
            Some((key, value)) => assignment(line@) == Some((key@, value@)),
            None => assignment(line@) is None,
        },
{
    let v = chars_of(line);
    assert(v@.subrange(0, v@.len() as int) == line@);
    let (start, end) = trim_range(&v, 0, v.len(), None);
    let ghost text = trimmed(line@);
    if start == end || v[start] == '#' {
        return None;
    }
    let mut i: usize = start;
    assert(text.skip(0) == text);
    while i < end && v[i] != '='
        invariant
            start <= i <= end <= v@.len(),
            text == v@.subrange(start as int, end as int),
            position(text, '=') == match position(text.skip(i - start), '=') {
                Some(k) => Some(k + i - start),
                None => None,
            },
        decreases end - i,
    {
        proof {
            let rest = text.skip(i - start);
            assert(rest[0] == v@[i as int]);
            assert(rest.skip(1) == text.skip(i + 1 - start));
        }
        i += 1;
    }
    if i == end {
        assert(text.skip(i - start).len() == 0);
        return None;
    }
    proof {
        assert(text.skip(i - start)[0] == '=');
        assert(position(text, '=') == Some(i - start));
        assert(v@.subrange(start as int, i as int) == text.take(i - start));
        assert(v@.subrange(i + 1, end as int) == text.skip(i - start + 1));
    }
    let (key_start, key_end) = trim_range(&v, start, i, None);
    let (value_start, value_end) = trim_range(&v, i + 1, end, None);
    let (inner_start, inner_end) = trim_range(&v, value_start, value_end, Some('"'));
    let (core_start, core_end) = trim_range(&v, inner_start, inner_end, Some('\''));
    let key = string_of_range(v.as_slice(), key_start, key_end);
    let value = string_of_range(v.as_slice(), core_start, core_end);
    if key_start == key_end || has_char(key.as_str(), '\0') || has_char(value.as_str(), '\0') {
        return None;
    }
    Some((key, value))
}

proof fn lemma_nothing_trimmed(s: Seq<char>, quote: Option<char>)
    requires
        s.len() > 0 ==> !is_trimmed(s[0], quote) && !is_trimmed(s.last(), quote),
    ensures
        trim_end(trim_start(s, quote), quote) == s,
{
}

pub proof fn lemma_position(front: Seq<char>, c: char, rest: Seq<char>)
    requires
        !front.contains(c),
    ensures
        position(front.push(c) + rest, c) == Some(front.len() as int),
    decreases front.len(),
{
    let s = front.push(c) + rest;
    if front.len() == 0 {
        assert(s[0] == c);
    } else {
        assert(s[0] == front[0]);
        assert(front[0] != c);
        assert forall|i: int| 0 <= i < front.skip(1).len() implies front.skip(1)[i] != c by {
            assert(front.skip(1)[i] == front[i + 1]);
        }
        lemma_position(front.skip(1), c, rest);
        assert(s.skip(1) == front.skip(1).push(c) + rest);
    }
}

/// A line `NAME=value` sets the variable `NAME` to `value`. The name holds no equals sign and does not
/// start a comment; neither the name nor the value holds a NUL character or has white space at its
/// ends, nor the value quotes.
pub proof fn law_plain_assignment(name: Seq<char>, value: Seq<char>)
    requires
        can_be_set(name, value),
        name[0] != '#',
        !name.contains('='),
        !is_white_space(name[0]),
        !is_white_space(name.last()),
        value.len() > 0 ==> {
            &&& !is_white_space(value[0]) && value[0] != '"' && value[0] != '\''
            &&& !is_white_space(value.last()) && value.last() != '"' && value.last() != '\''
        },
    ensures
        assignment(name.push('=') + value) == Some((name, value)),
{
    let line = name.push('=') + value;
    assert(line[0] == name[0]);
    assert(line.last() == if value.len() > 0 {
        value.last()
    } else {
        '='
    });
    lemma_nothing_trimmed(line, None);
    lemma_position(name, '=', value);
    assert(line.take(name.len() as int) == name);
    assert(line.skip(name.len() as int + 1) == value);
    lemma_nothing_trimmed(name, None);
    lemma_nothing_trimmed(value, None);
    lemma_nothing_trimmed(value, Some('"'));
    lemma_nothing_trimmed(value, Some('\''));
}

} // verus!

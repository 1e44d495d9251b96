//! Laws of configuration lines and of configured values.

use vstd::prelude::*;
use crate::config::{
    assignment, is_trimmed, is_white_space, lemma_position, number_or, position, text_or, trim_end, trim_start,
    trimmed, unquoted,
};
use crate::text::decimal;
use crate::text_laws::law_decimal;

verus! {

/// Only white space.
pub open spec fn all_white(s: Seq<char>) -> bool {
    forall|i: int| 0 <= i < s.len() ==> is_white_space(#[trigger] s[i])
}

/// Only characters that are trimmed.
spec fn all_trimmed(s: Seq<char>, quote: Option<char>) -> bool {
    forall|i: int| 0 <= i < s.len() ==> is_trimmed(#[trigger] s[i], quote)
}

proof fn lemma_start_trimmed(gap: Seq<char>, s: Seq<char>, quote: Option<char>)
    requires
        all_trimmed(gap, quote),
        s.len() > 0 ==> !is_trimmed(s[0], quote),
    ensures
        trim_start(gap + s, quote) == s,
    decreases gap.len(),
{
    let all = gap + s;
    if gap.len() == 0 {
        assert(all =~= s);
    } else {
        let rest = gap.skip(1);
        assert(all[0] == gap[0]);
        assert forall|i: int| 0 <= i < rest.len() implies is_trimmed(#[trigger] rest[i], quote) by {
            assert(rest[i] == gap[i + 1]);
        }
        lemma_start_trimmed(rest, s, quote);
        assert(all.skip(1) =~= rest + s);
    }
}

proof fn lemma_end_trimmed(s: Seq<char>, gap: Seq<char>, quote: Option<char>)
    requires
        all_trimmed(gap, quote),
        s.len() > 0 ==> !is_trimmed(s.last(), quote),
    ensures
        trim_end(s + gap, quote) == s,
    decreases gap.len(),
{
    let all = s + gap;
    if gap.len() == 0 {
        assert(all =~= s);
    } else {
        let rest = gap.drop_last();
        assert(all.last() == gap[gap.len() - 1]);
        assert forall|i: int| 0 <= i < rest.len() implies is_trimmed(#[trigger] rest[i], quote) by {
            assert(rest[i] == gap[i]);
        }
        lemma_end_trimmed(s, rest, quote);
        assert(all.drop_last() =~= s + rest);
    }
}

proof fn lemma_both_trimmed(before: Seq<char>, s: Seq<char>, after: Seq<char>, quote: Option<char>)
    requires
        all_trimmed(before, quote),
        all_trimmed(after, quote),
        s.len() > 0 ==> !is_trimmed(s[0], quote) && !is_trimmed(s.last(), quote),
    ensures
        trim_end(trim_start(before + s + after, quote), quote) == s,
{
    if s.len() > 0 {
        assert(before + s + after =~= before + (s + after));
        assert((s + after)[0] == s[0]);
        lemma_start_trimmed(before, s + after, quote);
        lemma_end_trimmed(s, after, quote);
    } else {
        let gap = before + after;
        let none = Seq::<char>::empty();
        assert(before + s + after =~= gap + none);
        assert forall|i: int| 0 <= i < gap.len() implies is_trimmed(#[trigger] gap[i], quote) by {
            if i < before.len() {
                assert(gap[i] == before[i]);
            } else {
                assert(gap[i] == after[i - before.len()]);
            }
        }
        lemma_start_trimmed(gap, none, quote);
        assert(trim_end(none, quote) =~= none);
        assert(s =~= none);
    }
}

/// White space at both ends of a text is dropped, and none inside it.
pub proof fn law_trimmed(before: Seq<char>, s: Seq<char>, after: Seq<char>)
    requires
        all_white(before),
        all_white(after),
        s.len() > 0 ==> !is_white_space(s[0]) && !is_white_space(s.last()),
    ensures
        trimmed(before + s + after) == s,
{
    assert(all_trimmed(before, None)) by {
        assert(forall|i: int| 0 <= i < before.len() ==> is_white_space(#[trigger] before[i]));
    }
    assert(all_trimmed(after, None)) by {
        assert(forall|i: int| 0 <= i < after.len() ==> is_white_space(#[trigger] after[i]));
    }
    lemma_both_trimmed(before, s, after, None);
}

/// A value as it stands in a line: bare, or in double or single quotes.
pub open spec fn quoted(value: Seq<char>, quote: Option<char>) -> Seq<char> {
    match quote {
        Some(q) => seq![q] + value + seq![q],
        None => value,
    }
}

proof fn lemma_unquoted(value: Seq<char>, quote: Option<char>)
    requires
        quote matches Some(q) ==> q == '"' || q == '\'',
        value.len() > 0 ==> {
            &&& value[0] != '"' && value[0] != '\''
            &&& value.last() != '"' && value.last() != '\''
        },
    ensures
        unquoted(unquoted(quoted(value, quote), '"'), '\'') == value,
{
    let none = Seq::<char>::empty();
    let text = quoted(value, quote);
    assert(none + value + none =~= value);
    assert(none + text + none =~= text);
    match quote {
        Some(q) => {
            let mark = seq![q];
            assert(all_trimmed(mark, Some(q)));
            lemma_both_trimmed(mark, value, mark, Some(q));
            if q == '"' {
                lemma_both_trimmed(none, value, none, Some('\''));
            } else {
                assert(text[0] == q && text.last() == q);
                lemma_both_trimmed(none, text, none, Some('"'));
            }
        },
        None => {
            lemma_both_trimmed(none, value, none, Some('"'));
            lemma_both_trimmed(none, value, none, Some('\''));
        },
    }
}

/// A line sets the variable that stands in front of its first equals sign to the value behind it, whatever
/// white space is around the two, and without the quotes around the value. White space inside quotes belongs to
/// the value. With a NUL character in the name or the value a line sets nothing.
#[verifier::rlimit(40)]
pub proof fn law_assignment(
    gaps: (Seq<char>, Seq<char>, Seq<char>, Seq<char>),
    name: Seq<char>,
    value: Seq<char>,
    quote: Option<char>,
)
    requires
        all_white(gaps.0) && all_white(gaps.1) && all_white(gaps.2) && all_white(gaps.3),
        name.len() > 0,
        name[0] != '#',
        !name.contains('='),
        !is_white_space(name[0]),
        !is_white_space(name.last()),
        quote matches Some(q) ==> q == '"' || q == '\'',
        value.len() > 0 ==> {
            &&& value[0] != '"' && value[0] != '\''
            &&& value.last() != '"' && value.last() != '\''
            &&& quote is None ==> !is_white_space(value[0]) && !is_white_space(value.last())
        },
    ensures
        assignment(
            gaps.0 + name + gaps.1 + seq!['='] + gaps.2 + quoted(value, quote) + gaps.3,
        ) == if name.contains('\0') || value.contains('\0') {
            None
        } else {
            Some((name, value))
        },
{
    let line = gaps.0 + name + gaps.1 + seq!['='] + gaps.2 + quoted(value, quote) + gaps.3;
    let none = Seq::<char>::empty();
    let core = quoted(value, quote);
    // Where the value is empty, white space behind the equals sign is dropped with the rest.
    let (inner, after) = if core.len() > 0 {
        (name + gaps.1 + seq!['='] + gaps.2 + core, gaps.3)
    } else {
        (name + gaps.1 + seq!['='], gaps.2 + gaps.3)
    };
    assert(line =~= gaps.0 + inner + after);
    assert(inner[0] == name[0]);
    if core.len() > 0 {
        assert(inner.last() == core.last());
    } else {
        assert(inner.last() == '=');
        assert forall|i: int| 0 <= i < after.len() implies is_white_space(#[trigger] after[i]) by {
            if i < gaps.2.len() {
                assert(after[i] == gaps.2[i]);
            } else {
                assert(after[i] == gaps.3[i - gaps.2.len()]);
            }
        }
    }
    law_trimmed(gaps.0, inner, after);
    let front = name + gaps.1;
    let rest = if core.len() > 0 {
        gaps.2 + core
    } else {
        none
    };
    assert(inner =~= front.push('=') + rest);
    assert forall|i: int| 0 <= i < front.len() implies front[i] != '=' by {
        if i < name.len() {
            assert(front[i] == name[i]);
            assert(name.contains(name[i]));
        } else {
            assert(is_white_space(gaps.1[i - name.len()]));
        }
    }
    lemma_position(front, '=', rest);
    assert(inner.take(front.len() as int) =~= front);
    assert(inner.skip(front.len() as int + 1) =~= rest);
    assert(front =~= none + name + gaps.1);
    law_trimmed(none, name, gaps.1);
    if core.len() > 0 {
        assert(rest =~= gaps.2 + core + none);
        law_trimmed(gaps.2, core, none);
    } else {
        assert(none + none + none =~= none);
        law_trimmed(none, none, none);
        assert(core =~= none);
    }
    lemma_unquoted(value, quote);
}

proof fn lemma_no_position(s: Seq<char>, c: char)
    requires
        !s.contains(c),
    ensures
        position(s, c) is None,
    decreases s.len(),
{
    if s.len() > 0 {
        let rest = s.skip(1);
        assert(s.contains(s[0]));
        assert forall|i: int| 0 <= i < rest.len() implies rest[i] != c by {
            assert(rest[i] == s[i + 1]);
        }
        lemma_no_position(rest, c);
    }
}

/// A comment, a line without an equals sign, and a line without a name set nothing.
pub proof fn law_no_assignment(before: Seq<char>, s: Seq<char>, after: Seq<char>)
    requires
        all_white(before),
        all_white(after),
        s.len() > 0 ==> !is_white_space(s[0]) && !is_white_space(s.last()),
        s.len() == 0 || s[0] == '#' || s[0] == '=' || !s.contains('='),
    ensures
        assignment(before + s + after) is None,
{
    law_trimmed(before, s, after);
    if s.len() > 0 && s[0] == '=' {
        let none = Seq::<char>::empty();
        assert(s.take(0) =~= none + none + none);
        law_trimmed(none, none, none);
    } else if !s.contains('=') {
        lemma_no_position(s, '=');
    }
}

/// A variable that holds a number in range configures that number; one that is not set, or that holds a
/// number out of range, configures the default. A text is configured as it is.
pub proof fn law_configured(n: nat, text: Seq<char>, max: nat, default: nat, default_text: Seq<char>)
    ensures
        n <= max ==> number_or(Some(decimal(n)), max, default) == n,
        n > max ==> number_or(Some(decimal(n)), max, default) == default,
        number_or(None, max, default) == default,
        text_or(Some(text), default_text) == text,
        text_or(None, default_text) == default_text,
{
    law_decimal(n, 0, max);
}

} // verus!

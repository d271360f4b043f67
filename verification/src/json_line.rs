//! The strings and the braces in a line of JSON.
use crate::text::{
    count, cut, is_space, lacks, lemma_cut_made, lemma_span, lemma_span_unique, position, skip,
    span, trim_start, trimmed_start, CharClass,
};
use vstd::prelude::*;

verus! {

/// Where the string ends that `s` is the inside of: at the first quote that no
/// backslash stands before.
pub open spec fn string_end(s: Seq<char>) -> Option<nat>
    decreases s.len(),
{
    if s.len() == 0 {
        None
    } else if s[0] == '"' {
        Some(0)
    } else {
        let step: nat = if s[0] == '\\' {
            2
        } else {
            1
        };
        if s.len() < step {
            None
        } else {
            match string_end(s.skip(step as int)) {
                Some(k) => Some(k + step),
                None => None,
            }
        }
    }
}

/// What a string holds whose inside `s` begins with, and what follows its closing quote.
pub open spec fn cut_string(s: Seq<char>) -> Option<(Seq<char>, Seq<char>)> {
    match string_end(s) {
        Some(k) => Some((s.take(k as int), s.skip(k as int + 1))),
        None => None,
    }
}

/// What follows the character that `s` begins with behind white space.
pub open spec fn after_mark(s: Seq<char>, c: char) -> Option<Seq<char>> {
    let t = trim_start(s);
    if t.len() > 0 && t[0] == c {
        Some(t.skip(1))
    } else {
        None
    }
}

/// What stands outside of the strings in a line. A string that does not end takes the
/// rest of the line.
pub open spec fn outside_strings(s: Seq<char>) -> Seq<char>
    decreases s.len(),
{
    match cut(s, '"') {
        Some((before, inside)) => match string_end(inside) {
            Some(k) => if k < inside.len() {
                before + outside_strings(inside.skip(k as int + 1))
            } else {
                before
            },
            None => before,
        },
        None => s,
    }
}

/// By how much a text deepens the nesting of braces.
pub open spec fn brace_balance(s: Seq<char>) -> int {
    count(s, '{') - count(s, '}')
}

/// The lowest nesting that a text goes through, counted from where it begins.
pub open spec fn lowest(s: Seq<char>) -> int
    decreases s.len(),
{
    if s.len() == 0 {
        0
    } else if brace_balance(s) < lowest(s.drop_last()) {
        brace_balance(s)
    } else {
        lowest(s.drop_last())
    }
}

/// Whether a text can stand inside a string: it has no quote of its own that would end
/// the string, and no backslash that would take the closing quote away.
pub open spec fn is_inside(s: Seq<char>) -> bool
    decreases s.len(),
{
    if s.len() == 0 {
        true
    } else if s[0] == '\\' {
        s.len() >= 2 && is_inside(s.skip(2))
    } else {
        s[0] != '"' && is_inside(s.skip(1))
    }
}

pub proof fn lemma_string_end(s: Seq<char>)
    ensures
        string_end(s) matches Some(k) ==> k < s.len() && s[k as int] == '"' && is_inside(
            s.take(k as int),
        ),
    decreases s.len(),
{
    if s.len() > 0 && s[0] != '"' {
        let step: int = if s[0] == '\\' {
            2
        } else {
            1
        };
        if s.len() >= step {
            let rest = s.skip(step);
            lemma_string_end(rest);
            if string_end(rest) is Some {
                let k = string_end(rest)->0 as int;
                let a = s.take(k + step);
                assert(a.skip(step) =~= rest.take(k));
                assert(a[0] == s[0]);
            }
        }
    }
}

/// A string is what it holds, its closing quote, and what follows it.
pub proof fn lemma_string_parts(s: Seq<char>)
    requires
        cut_string(s) is Some,
    ensures
        ({
            let (a, b) = cut_string(s)->0;
            &&& s == a + seq!['"'] + b
            &&& is_inside(a)
        }),
{
    lemma_string_end(s);
    let (a, b) = cut_string(s)->0;
    assert(s =~= a + seq!['"'] + b);
}

proof fn lemma_string_end_made(a: Seq<char>, b: Seq<char>)
    requires
        is_inside(a),
    ensures
        string_end(a + seq!['"'] + b) == Some(a.len()),
    decreases a.len(),
{
    let s = a + seq!['"'] + b;
    if a.len() == 0 {
        assert(s[0] == '"');
    } else {
        assert(s[0] == a[0]);
        let step: int = if a[0] == '\\' {
            2
        } else {
            1
        };
        assert(s.skip(step) =~= a.skip(step) + seq!['"'] + b);
        lemma_string_end_made(a.skip(step), b);
    }
}

/// A string ends where its inside does.
pub proof fn lemma_string_made(a: Seq<char>, b: Seq<char>)
    requires
        is_inside(a),
    ensures
        cut_string(a + seq!['"'] + b) == Some((a, b)),
{
    lemma_string_end_made(a, b);
    let s = a + seq!['"'] + b;
    assert(s.take(a.len() as int) =~= a);
    assert(s.skip(a.len() as int + 1) =~= b);
}

pub proof fn lemma_plain_inside(s: Seq<char>)
    requires
        lacks(s, '"'),
        lacks(s, '\\'),
    ensures
        is_inside(s),
    decreases s.len(),
{
    if s.len() > 0 {
        let rest = s.skip(1);
        assert forall|i: int| 0 <= i < rest.len() implies #[trigger] rest[i] != '"' && rest[i]
            != '\\' by {
            assert(rest[i] == s[i + 1]);
        }
        lemma_plain_inside(rest);
    }
}

/// The beginning of an inside and a text without quotes and backslashes make an inside.
pub proof fn lemma_inside_rewritten(s: Seq<char>, k: int, text: Seq<char>)
    requires
        is_inside(s),
        0 <= k <= s.len(),
        text.len() > 0,
        lacks(text, '"'),
        lacks(text, '\\'),
    ensures
        is_inside(s.take(k) + text),
    decreases k,
{
    let new = s.take(k) + text;
    if k == 0 {
        assert(new =~= text);
        lemma_plain_inside(text);
    } else if s[0] == '\\' {
        assert(new[0] == '\\');
        if k == 1 {
            let rest = text.skip(1);
            assert(new.skip(2) =~= rest);
            assert forall|i: int| 0 <= i < rest.len() implies #[trigger] rest[i] != '"' && rest[i]
                != '\\' by {
                assert(rest[i] == text[i + 1]);
            }
            lemma_plain_inside(rest);
        } else {
            assert(new.skip(2) =~= s.skip(2).take(k - 2) + text);
            lemma_inside_rewritten(s.skip(2), k - 2, text);
        }
    } else {
        assert(new[0] == s[0]);
        assert(new.skip(1) =~= s.skip(1).take(k - 1) + text);
        lemma_inside_rewritten(s.skip(1), k - 1, text);
    }
}

/// What stands before a string and after it stands outside of it.
pub proof fn lemma_outside_string(lead: Seq<char>, inside: Seq<char>, rest: Seq<char>)
    requires
        lacks(lead, '"'),
        is_inside(inside),
    ensures
        outside_strings(lead + seq!['"'] + (inside + seq!['"'] + rest)) == lead + outside_strings(
            rest,
        ),
{
    lemma_cut_made(lead, '"', inside + seq!['"'] + rest);
    lemma_string_end_made(inside, rest);
    let from = inside + seq!['"'] + rest;
    assert(from.skip(inside.len() as int + 1) =~= rest);
}

/// What is cut off at a mark stood behind white space and the mark.
pub proof fn lemma_mark_parts(s: Seq<char>, c: char) -> (blank: Seq<char>)
    requires
        after_mark(s, c) is Some,
    ensures
        s == blank + seq![c] + after_mark(s, c)->0,
        forall|i: int| 0 <= i < blank.len() ==> is_space(#[trigger] blank[i]),
{
    lemma_span(s, CharClass::Space);
    let k = span(s, CharClass::Space) as int;
    let blank = s.take(k);
    assert(s =~= blank + seq![c] + after_mark(s, c)->0);
    assert forall|i: int| 0 <= i < blank.len() implies is_space(#[trigger] blank[i]) by {
        assert(CharClass::Space.has(s[i]));
    }
    blank
}

/// A mark behind white space is cut off.
pub proof fn lemma_mark_made(blank: Seq<char>, c: char, rest: Seq<char>)
    requires
        forall|i: int| 0 <= i < blank.len() ==> is_space(#[trigger] blank[i]),
        !is_space(c),
    ensures
        after_mark(blank + seq![c] + rest, c) == Some(rest),
{
    let s = blank + seq![c] + rest;
    assert forall|i: int| 0 <= i < blank.len() implies CharClass::Space.has(#[trigger] s[i]) by {
        assert(s[i] == blank[i]);
    }
    assert(s[blank.len() as int] == c);
    lemma_span_unique(s, CharClass::Space, blank.len());
    assert(trim_start(s).skip(1) =~= rest);
}

/// Where the string ends that `s` is the inside of.
pub fn string_len(s: &[char]) -> (r: Option<usize>)
    ensures
        match r {
            Some(k) => string_end(s@) == Some(k as nat) && k < s@.len() && k < usize::MAX,
            None => string_end(s@) is None,
        },
{
    let mut i: usize = 0;
    proof {
        assert(s@.skip(0) =~= s@);
    }
    while i < s.len()
        invariant
            i <= s@.len(),
            string_end(s@) == match string_end(s@.skip(i as int)) {
                Some(k) => Some(k + i as nat),
                None => None,
            },
        decreases s@.len() - i,
    {
        let ghost rest = s@.skip(i as int);
        assert(rest[0] == s@[i as int]);
        if s[i] == '"' {
            return Some(i);
        }
        let step: usize = if s[i] == '\\' {
            2
        } else {
            1
        };
        if s.len() - i < step {
            return None;
        }
        assert(rest.skip(step as int) =~= s@.skip(i + step));
        i += step;
    }
    None
}

/// What follows the character that `s` begins with behind white space.
pub fn past_mark(s: &[char], c: char) -> (r: Option<&[char]>)
    ensures
        match r {
            Some(rest) => after_mark(s@, c) == Some(rest@),
            None => after_mark(s@, c) is None,
        },
{
    let t = trimmed_start(s);
    if t.len() > 0 && t[0] == c {
        Some(skip(t, 1))
    } else {
        None
    }
}

/// What stands outside of the strings in a line.
pub fn unquoted(line: &[char]) -> (r: Vec<char>)
    ensures
        r@ == outside_strings(line@),
        r@.len() <= line@.len(),
{
    let mut out: Vec<char> = Vec::new();
    let mut rest = line;
    let mut open = true;
    while open
        invariant
            out@.len() <= line@.len(),
            open ==> out@.len() + rest@.len() <= line@.len(),
            open ==> outside_strings(line@) == out@ + outside_strings(rest@),
            !open ==> outside_strings(line@) == out@,
        decreases open as int, rest@.len(),
    {
        let ghost before = out@;
        let quote: Option<usize> = position(rest, '"');
        let plain: usize = match quote {
            Some(k) => k,
            None => rest.len(),
        };
        let mut i: usize = 0;
        while i < plain
            invariant
                i <= plain <= rest@.len(),
                out@ == before + rest@.take(i as int),
            decreases plain - i,
        {
            out.push(rest[i]);
            i += 1;
            assert(rest@.take(i as int) =~= rest@.take(i - 1).push(rest@[i - 1]));
        }
        match quote {
            Some(k) => {
                let inside = skip(rest, k + 1);
                match string_len(inside) {
                    Some(end) => {
                        let next = skip(inside, end + 1);
                        assert(out@ + outside_strings(next@) =~= before + (rest@.take(k as int)
                            + outside_strings(next@)));
                        rest = next;
                    },
                    None => {
                        open = false;
                    },
                }
            },
            None => {
                assert(rest@.take(plain as int) =~= rest@);
                open = false;
            },
        }
    }
    out
}

/// By how much a text deepens the nesting of braces, and the lowest nesting that it goes
/// through.
pub fn nesting(s: &[char]) -> (r: (i128, i128))
    ensures
        r.0 == brace_balance(s@),
        r.1 == lowest(s@),
        -s@.len() <= r.0 <= s@.len(),
        -s@.len() <= r.1 <= 0,
{
    let mut depth: i128 = 0;
    let mut least: i128 = 0;
    let mut i: usize = 0;
    while i < s.len()
        invariant
            i <= s@.len(),
            depth == brace_balance(s@.take(i as int)),
            least == lowest(s@.take(i as int)),
            -i <= depth <= i,
            -i <= least <= 0,
        decreases s@.len() - i,
    {
        proof {
            assert(s@.take(i + 1).drop_last() =~= s@.take(i as int));
            assert(s@.take(i + 1).last() == s@[i as int]);
        }
        if s[i] == '{' {
            depth += 1;
        } else if s[i] == '}' {
            depth -= 1;
        }
        if depth < least {
            least = depth;
        }
        i += 1;
    }
    proof {
        assert(s@.take(i as int) =~= s@);
    }
    (depth, least)
}

} // verus!

//! What texts are made of, and what taking them apart gives back.
use crate::text::{
    cut, decimal, digit, find_text, is_space, join, lacks, lemma_cut_made, lemma_cut_parts,
    lemma_find_text, lemma_span, lemma_span_unique, lemma_trim_end, lemma_trim_end_unique, lines,
    span, split, strip_prefixes, strip_suffixes, trim, trim_end, trim_start, CharClass,
};
use vstd::prelude::*;

verus! {

/// Whether a text is white space alone.
pub open spec fn is_blank(s: Seq<char>) -> bool {
    forall|i: int| 0 <= i < s.len() ==> is_space(#[trigger] s[i])
}

/// Whether a text has white space neither first nor last, and is not empty.
pub open spec fn is_tight(s: Seq<char>) -> bool {
    s.len() > 0 && !is_space(s[0]) && !is_space(s.last())
}

/// What stands before a number in a range is a caret, a tilde, a comparison, the letter
/// `v` or a blank; what ends the numbers is a hyphen or a plus sign.
pub proof fn law_classes(c: char)
    ensures
        CharClass::RangeOperator.has(c) <==> "^~><=v "@.contains(c),
        !CharClass::NotSuffixMark.has(c) <==> "-+"@.contains(c),
        CharClass::Digit.has(c) <==> "0123456789"@.contains(c),
        CharClass::NotDigit.has(c) <==> !"0123456789"@.contains(c),
        CharClass::NotSpace.has(c) <==> !is_space(c),
        CharClass::Space.has(c) <==> is_space(c),
        forall|x: char| #[trigger] CharClass::Except(x).has(c) <==> c != x,
        (c as u32) < 128 ==> (is_space(c) <==> " \t\n\r\u{b}\u{c}"@.contains(c)),
{
    reveal_strlit("^~><=v ");
    reveal_strlit("-+");
    reveal_strlit("0123456789");
    reveal_strlit(" \t\n\r\u{b}\u{c}");
    let ops = "^~><=v "@;
    assert(ops[0] == '^' && ops[1] == '~' && ops[2] == '>' && ops[3] == '<' && ops[4] == '='
        && ops[5] == 'v' && ops[6] == ' ');
    let marks = "-+"@;
    assert(marks[0] == '-' && marks[1] == '+');
    let ten = "0123456789"@;
    assert(ten[0] == '0' && ten[1] == '1' && ten[2] == '2' && ten[3] == '3' && ten[4] == '4'
        && ten[5] == '5' && ten[6] == '6' && ten[7] == '7' && ten[8] == '8' && ten[9] == '9');
    let blanks = " \t\n\r\u{b}\u{c}"@;
    assert(blanks[0] == ' ' && blanks[1] == '\t' && blanks[2] == '\n' && blanks[3] == '\r'
        && blanks[4] == '\u{b}' && blanks[5] == '\u{c}');
}

/// Blanks around a text are what trimming takes away, and all that it takes away.
pub proof fn law_trim(lead: Seq<char>, body: Seq<char>, tail: Seq<char>)
    requires
        is_blank(lead),
        is_blank(tail),
        is_tight(body),
    ensures
        trim(lead + body + tail) == body,
        trim_start(lead + body + tail) == body + tail,
        trim_end(lead + body + tail) == lead + body,
{
    let s = lead + body + tail;
    assert forall|i: int| 0 <= i < lead.len() implies CharClass::Space.has(#[trigger] s[i]) by {
        assert(s[i] == lead[i]);
    }
    assert(s[lead.len() as int] == body[0]);
    lemma_span_unique(s, CharClass::Space, lead.len());
    let t = body + tail;
    assert(trim_start(s) =~= t);
    assert(t[body.len() - 1] == body.last());
    assert forall|i: int| body.len() <= i < t.len() implies is_space(#[trigger] t[i]) by {
        assert(t[i] == tail[i - body.len()]);
    }
    lemma_trim_end_unique(t, body.len());
    assert(t.take(body.len() as int) =~= body);
    let n = (lead.len() + body.len()) as nat;
    assert(s[n - 1] == body.last());
    assert forall|i: int| n <= i < s.len() implies is_space(#[trigger] s[i]) by {
        assert(s[i] == tail[i - n]);
    }
    lemma_trim_end_unique(s, n);
    assert(s.take(n as int) =~= lead + body);
}

/// Nothing is left exactly of a text that is white space alone.
pub proof fn law_blank(s: Seq<char>)
    ensures
        trim(s).len() == 0 <==> is_blank(s),
        trim_start(s).len() == 0 <==> is_blank(s),
        trim_end(s).len() == 0 <==> is_blank(s),
{
    lemma_span(s, CharClass::Space);
    let n = span(s, CharClass::Space) as int;
    let t = trim_start(s);
    lemma_trim_end(t);
    lemma_trim_end(s);
    if is_blank(s) {
        if n < s.len() {
            assert(is_space(s[n]));
        }
        if trim_end(s).len() > 0 {
            assert(is_space(s[trim_end(s).len() - 1]));
        }
    } else {
        let k = choose|k: int| 0 <= k < s.len() && !is_space(s[k]);
        if n == s.len() {
            assert(CharClass::Space.has(s[k]));
        }
        if trim(s).len() == 0 {
            assert(t.len() > 0);
            assert(is_space(t[0]));
            assert(t[0] == s[n]);
        }
    }
}

/// The lines of a text: a line feed ends a line, a carriage return before it is no part
/// of the line, and what follows the last line feed is a line unless it is empty.
pub proof fn law_lines(first: Seq<char>, rest: Seq<char>)
    requires
        lacks(first, '\n'),
    ensures
        lines(Seq::<char>::empty()) == Seq::<Seq<char>>::empty(),
        first.len() > 0 ==> lines(first) == seq![first],
        first.len() == 0 || first.last() != '\r' ==> lines(first + seq!['\n'] + rest) == seq![first]
            + lines(rest),
        lines(first + seq!['\r', '\n'] + rest) == seq![first] + lines(rest),
{
    let s = first + seq!['\n'] + rest;
    lemma_cut_made(first, '\n', rest);
    let returned = first.push('\r');
    let t = first + seq!['\r', '\n'] + rest;
    assert(t =~= returned + seq!['\n'] + rest);
    lemma_cut_made(returned, '\n', rest);
    assert(returned.drop_last() =~= first);
    if first.len() > 0 {
        if cut(first, '\n') is Some {
            lemma_cut_parts(first, '\n');
            let (a, b) = cut(first, '\n')->0;
            assert(first[a.len() as int] == '\n');
        }
    }
}

/// A text falls into pieces at each of the characters, and nowhere else.
pub proof fn law_split(first: Seq<char>, c: char, rest: Seq<char>)
    requires
        lacks(first, c),
    ensures
        split(first, c) == seq![first],
        split(first + seq![c] + rest, c) == seq![first] + split(rest, c),
{
    lemma_cut_made(first, c, rest);
    if cut(first, c) is Some {
        lemma_cut_parts(first, c);
        let (a, b) = cut(first, c)->0;
        assert(first[a.len() as int] == c);
    }
}

/// Joining puts the separator between two neighbours, and nowhere else.
pub proof fn law_join(parts: Seq<Seq<char>>, last: Seq<char>, sep: Seq<char>)
    ensures
        join(Seq::<Seq<char>>::empty(), sep) == Seq::<char>::empty(),
        join(parts.push(last), sep) == if parts.len() == 0 {
            last
        } else {
            join(parts, sep) + sep + last
        },
{
    assert(parts.push(last).drop_last() =~= parts);
}

/// The number that decimal digits write.
pub open spec fn number_of(digits: Seq<char>) -> int
    decreases digits.len(),
{
    if digits.len() == 0 {
        0
    } else {
        10 * number_of(digits.drop_last()) + (digits.last() as int - '0' as int)
    }
}

/// A number is written in digits that read back as it, with no zero in front but in 0.
pub proof fn law_decimal(n: nat)
    ensures
        number_of(decimal(n)) == n,
        decimal(n).len() > 0,
        forall|i: int| 0 <= i < decimal(n).len() ==> '0' <= #[trigger] decimal(n)[i] <= '9',
        n > 0 ==> decimal(n)[0] != '0',
        n == 0 ==> decimal(n) == seq!['0'],
    decreases n,
{
    if n < 10 {
        assert(decimal(n) == seq![digit(n)]);
        assert(decimal(n).drop_last() =~= Seq::<char>::empty());
        assert(number_of(Seq::<char>::empty()) == 0);
    } else {
        law_decimal(n / 10);
        assert(decimal(n).drop_last() =~= decimal(n / 10));
    }
}

/// A text is found exactly where it stands in the other one.
pub proof fn law_find_text(before: Seq<char>, needle: Seq<char>, after: Seq<char>)
    ensures
        find_text(before + needle + after, needle) is Some,
{
    let s = before + needle + after;
    lemma_find_text(s, needle);
    if find_text(s, needle) is None {
        assert(!needle.is_prefix_of(s.skip(before.len() as int)));
        assert(s.skip(before.len() as int).take(needle.len() as int) =~= needle);
    }
}

/// What is stripped from the front is copies of the prefix, all of them.
pub proof fn law_strip_prefixes(s: Seq<char>, prefix: Seq<char>)
    requires
        prefix.len() > 0,
    ensures
        strip_prefixes(prefix + s, prefix) == strip_prefixes(s, prefix),
        !prefix.is_prefix_of(s) ==> strip_prefixes(s, prefix) == s,
{
    assert((prefix + s).skip(prefix.len() as int) =~= s);
    assert(prefix.is_prefix_of(prefix + s));
}

/// What is stripped from the end is copies of the suffix, all of them.
pub proof fn law_strip_suffixes(s: Seq<char>, suffix: Seq<char>)
    requires
        suffix.len() > 0,
    ensures
        strip_suffixes(s + suffix, suffix) == strip_suffixes(s, suffix),
        !suffix.is_suffix_of(s) ==> strip_suffixes(s, suffix) == s,
{
    assert((s + suffix).take(s.len() as int) =~= s);
    assert(suffix.is_suffix_of(s + suffix));
}

} // verus!

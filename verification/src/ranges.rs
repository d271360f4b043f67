//! What a version range is made of, and which version it starts from.
use crate::rewrite_spec::{lemma_release_chars, lemma_span_append};
use crate::text::{
    cut, decimal, is_space, lacks, lemma_cut_made, lemma_cut_parts, lemma_span, lemma_span_unique,
    lemma_trim_end, lemma_trim_end_unique, span, split, trim, trim_end, trim_start, CharClass,
};
use crate::text_laws::{is_blank, law_classes, law_decimal, law_split};
use crate::version::{
    first_word, full_numbers, lemma_release_written, number_at, range_start, range_version, release,
    release_text,
};
use vstd::prelude::*;

verus! {

/// Whether a text is made of the range operators `^ ~ > < = v` and blanks alone.
pub open spec fn is_operators(p: Seq<char>) -> bool {
    forall|i: int| 0 <= i < p.len() ==> "^~><=v "@.contains(#[trigger] p[i])
}

/// Whether a text is one of the wildcards.
pub open spec fn is_wild(piece: Seq<char>) -> bool {
    piece == "x"@ || piece == "X"@ || piece == "*"@
}

/// Whether a piece of a version stands for a number: it is the number, or a wildcard for 0.
pub open spec fn stands_for(piece: Seq<char>, n: u64) -> bool {
    piece == decimal(n as nat) || (n == 0 && is_wild(piece))
}

/// Whether dotted pieces stand for three numbers: those that are missing are 0, and what
/// follows the third does not count.
pub open spec fn reads_as(core: Seq<char>, a: u64, b: u64, c: u64) -> bool {
    ||| stands_for(core, a) && b == 0 && c == 0
    ||| exists|x: Seq<char>, y: Seq<char>|
        {
            &&& core == #[trigger] dotted(x, y)
            &&& stands_for(x, a) && stands_for(y, b) && c == 0
        }
    ||| exists|x: Seq<char>, y: Seq<char>, z: Seq<char>|
        {
            &&& core == #[trigger] dotted(x, dotted(y, z))
            &&& stands_for(x, a) && stands_for(y, b) && stands_for(z, c)
        }
    ||| exists|x: Seq<char>, y: Seq<char>, z: Seq<char>, more: Seq<char>|
        {
            &&& core == #[trigger] dotted(x, dotted(y, dotted(z, more)))
            &&& stands_for(x, a) && stands_for(y, b) && stands_for(z, c)
        }
}

/// Two pieces with a dot between them.
pub open spec fn dotted(x: Seq<char>, y: Seq<char>) -> Seq<char> {
    x + seq!['.'] + y
}

/// Whether a text is a word without a colon: no white space in it.
pub open spec fn is_word(s: Seq<char>) -> bool {
    forall|i: int| 0 <= i < s.len() ==> !is_space(#[trigger] s[i]) && s[i] != ':'
}

/// The parts of a range: blanks, operators, blanks, the numbers, a pre-release or build
/// metadata, and what follows the first word.
pub struct RangeParts {
    pub lead: Seq<char>,
    pub operators: Seq<char>,
    pub gap: Seq<char>,
    pub core: Seq<char>,
    pub suffix: Seq<char>,
    pub rest: Seq<char>,
}

/// What stands before the numbers.
pub open spec fn before_core(p: RangeParts) -> Seq<char> {
    p.lead + p.operators + p.gap
}

/// The range that the parts make.
pub open spec fn range_of(p: RangeParts) -> Seq<char> {
    before_core(p) + (p.core + p.suffix + p.rest)
}

/// Whether the parts are what they are named after, and the range is not `*` alone.
pub open spec fn are_parts(p: RangeParts) -> bool {
    &&& is_blank(p.lead) && is_operators(p.operators) && is_blank(p.gap)
    &&& is_word(p.core) && lacks(p.core, '-') && lacks(p.core, '+')
    &&& is_word(p.suffix)
    &&& p.suffix.len() > 0 ==> p.suffix[0] == '-' || p.suffix[0] == '+'
    &&& p.rest.len() > 0 ==> is_space(p.rest[0])
    &&& lacks(p.rest, ':')
    &&& !(p.core == "*"@ && p.suffix.len() == 0 && is_blank(p.rest) && is_blank(before_core(p)))
}

proof fn lemma_wild_chars(piece: Seq<char>)
    requires
        is_wild(piece),
    ensures
        piece.len() == 1,
        piece[0] == 'x' || piece[0] == 'X' || piece[0] == '*',
        lacks(piece, '.'),
{
    reveal_strlit("x");
    reveal_strlit("X");
    reveal_strlit("*");
}

proof fn lemma_stands_for(piece: Seq<char>, n: u64)
    requires
        stands_for(piece, n),
    ensures
        piece.len() > 0,
        '0' <= piece[0] <= '9' || piece[0] == 'x' || piece[0] == 'X' || piece[0] == '*',
        lacks(piece, '.'),
        is_wild(piece) ==> n == 0,
        !is_wild(piece) ==> piece == decimal(n as nat),
{
    law_decimal(n as nat);
    if is_wild(piece) {
        lemma_wild_chars(piece);
        if piece == decimal(n as nat) {
            assert('0' <= decimal(n as nat)[0] <= '9');
        }
    }
}

/// What the pieces of dotted numbers are written as.
pub proof fn lemma_pieces(core: Seq<char>, a: u64, b: u64, c: u64)
    requires
        reads_as(core, a, b, c),
    ensures
        full_numbers(core) == release_text(a as nat, b as nat, c as nat),
        core.len() > 0,
        '0' <= core[0] <= '9' || core[0] == 'x' || core[0] == 'X' || core[0] == '*',
{
    law_decimal(0);
    let parts = split(core, '.');
    if stands_for(core, a) && b == 0 && c == 0 {
        lemma_stands_for(core, a);
        law_split(core, '.', core);
    } else if exists|x: Seq<char>, y: Seq<char>|
        {
            &&& core == #[trigger] dotted(x, y)
            &&& stands_for(x, a) && stands_for(y, b) && c == 0
        } {
        let (x, y) = choose|x: Seq<char>, y: Seq<char>|
            {
                &&& core == #[trigger] dotted(x, y)
                &&& stands_for(x, a) && stands_for(y, b) && c == 0
            };
        lemma_stands_for(x, a);
        lemma_stands_for(y, b);
        law_split(x, '.', y);
        law_split(y, '.', y);
        assert(parts =~= seq![x, y]);
        assert(core[0] == x[0]);
    } else if exists|x: Seq<char>, y: Seq<char>, z: Seq<char>|
        {
            &&& core == #[trigger] dotted(x, dotted(y, z))
            &&& stands_for(x, a) && stands_for(y, b) && stands_for(z, c)
        } {
        let (x, y, z) = choose|x: Seq<char>, y: Seq<char>, z: Seq<char>|
            {
                &&& core == #[trigger] dotted(x, dotted(y, z))
                &&& stands_for(x, a) && stands_for(y, b) && stands_for(z, c)
            };
        lemma_stands_for(x, a);
        lemma_stands_for(y, b);
        lemma_stands_for(z, c);
        law_split(x, '.', dotted(y, z));
        law_split(y, '.', z);
        law_split(z, '.', z);
        assert(parts =~= seq![x, y, z]);
        assert(core[0] == x[0]);
    } else {
        let (x, y, z, more) = choose|x: Seq<char>, y: Seq<char>, z: Seq<char>, more: Seq<char>|
            {
                &&& core == #[trigger] dotted(x, dotted(y, dotted(z, more)))
                &&& stands_for(x, a) && stands_for(y, b) && stands_for(z, c)
            };
        lemma_stands_for(x, a);
        lemma_stands_for(y, b);
        lemma_stands_for(z, c);
        law_split(x, '.', dotted(y, dotted(z, more)));
        law_split(y, '.', dotted(z, more));
        law_split(z, '.', more);
        assert(parts =~= seq![x, y, z] + split(more, '.'));
        assert(core[0] == x[0]);
    }
}

/// Behind the blanks at the start and the operators stand blanks alone.
pub proof fn lemma_before_core(p: RangeParts)
    requires
        is_blank(p.lead),
        is_operators(p.operators),
        is_blank(p.gap),
    ensures
        ({
            let t = trim_start(before_core(p));
            &&& is_blank(t.skip(span(t, CharClass::RangeOperator) as int))
            &&& forall|i: int|
                0 <= i < t.len() ==> is_space(#[trigger] t[i]) || CharClass::RangeOperator.has(t[i])
            &&& t.len() == 0 ==> is_blank(before_core(p))
        }),
{
    let q = before_core(p);
    let op = CharClass::RangeOperator;
    let k = span(q, CharClass::Space) as int;
    lemma_span(q, CharClass::Space);
    let t = trim_start(q);
    let e = span(t, op) as int;
    lemma_span(t, op);
    let (a, b) = (p.lead.len() as int, (p.lead.len() + p.operators.len()) as int);
    assert forall|i: int| 0 <= i < q.len() implies {
        &&& i < a || i >= b ==> is_space(#[trigger] q[i])
        &&& a <= i < b ==> op.has(q[i])
    } by {
        law_classes(q[i]);
        if i < a {
            assert(q[i] == p.lead[i]);
        } else if i < b {
            assert(q[i] == p.operators[i - a]);
        } else {
            assert(q[i] == p.gap[i - b]);
        }
    }
    if k < a {
        assert(is_space(q[k]));
    }
    assert forall|i: int| 0 <= i < t.len() implies is_space(#[trigger] t[i]) || op.has(t[i]) by {
        assert(t[i] == q[k + i]);
    }
    let after = t.skip(e);
    assert forall|i: int| 0 <= i < after.len() implies is_space(#[trigger] after[i]) by {
        assert(after[i] == t[e + i]);
        assert(after[i] == q[k + e + i]);
        if k + e + i < b {
            if e < t.len() {
                assert(t[e] == q[k + e]);
            }
        }
    }
    if t.len() == 0 {
        assert forall|i: int| 0 <= i < q.len() implies is_space(#[trigger] q[i]) by {
            assert(CharClass::Space.has(q[i]));
        }
    }
}

/// What is trimmed from the end of a text is trimmed from the end of its last part.
proof fn lemma_trim_last(x: Seq<char>, y: Seq<char>)
    requires
        trim_end(y).len() > 0,
    ensures
        trim_end(x + y) == x + trim_end(y),
{
    lemma_trim_end(y);
    let n = (x.len() + trim_end(y).len()) as nat;
    let s = x + y;
    assert(s[n - 1] == trim_end(y).last());
    assert forall|i: int| n <= i < s.len() implies is_space(#[trigger] s[i]) by {
        assert(s[i] == y[i - x.len()]);
    }
    lemma_trim_end_unique(s, n);
    assert(s.take(n as int) =~= x + trim_end(y));
}

/// The first word of the numbers and what follows them, and what is trimmed behind it.
proof fn lemma_kept(p: RangeParts)
    requires
        are_parts(p),
        p.core.len() > 0,
    ensures
        ({
            let word = p.core + p.suffix;
            let kept = trim_end(word + p.rest);
            &&& kept.len() >= word.len()
            &&& kept.take(word.len() as int) == word
            &&& kept.len() > word.len() ==> is_space(kept[word.len() as int])
            &&& kept[0] == p.core[0]
            &&& forall|i: int| 0 <= i < word.len() ==> !is_space(#[trigger] word[i])
        }),
{
    let word = p.core + p.suffix;
    let tail = word + p.rest;
    assert forall|i: int| 0 <= i < word.len() implies !is_space(#[trigger] word[i]) by {
        if i < p.core.len() {
            assert(word[i] == p.core[i]);
        } else {
            assert(word[i] == p.suffix[i - p.core.len()]);
        }
    }
    lemma_trim_end(tail);
    let n = trim_end(tail).len() as int;
    if n < word.len() {
        assert(is_space(tail[n]));
        assert(tail[n] == word[n]);
    }
    let kept = trim_end(tail);
    assert(kept.take(word.len() as int) =~= word) by {
        assert forall|i: int| 0 <= i < word.len() implies #[trigger] kept[i] == word[i] by {
            assert(tail.take(n)[i] == tail[i]);
        }
    }
    if kept.len() > word.len() {
        assert(tail.take(n)[word.len() as int] == p.rest[0]);
    }
    assert(kept[0] == word[0]);
}

/// A range without the blanks around it.
proof fn lemma_trimmed_range(p: RangeParts)
    requires
        are_parts(p),
        p.core.len() > 0,
        !is_space(p.core[0]),
    ensures
        trim(range_of(p)) == trim_start(before_core(p)) + trim_end(p.core + p.suffix + p.rest),
{
    let q = before_core(p);
    let tail = p.core + p.suffix + p.rest;
    lemma_kept(p);
    assert(tail[0] == p.core[0]);
    lemma_span(q, CharClass::Space);
    lemma_span_append(q, tail, CharClass::Space);
    assert(trim_start(range_of(p)) =~= trim_start(q) + tail);
    lemma_trim_last(trim_start(q), tail);
}

/// The word that a range starts with, and what is left behind it.
proof fn lemma_range_start(p: RangeParts)
    requires
        are_parts(p),
        p.core.len() > 0,
        '0' <= p.core[0] <= '9' || p.core[0] == 'x' || p.core[0] == 'X' || p.core[0] == '*',
    ensures
        range_start(range_of(p)) == Some(p.core),
{
    let op = CharClass::RangeOperator;
    let word = p.core + p.suffix;
    let kept = trim_end(word + p.rest);
    lemma_before_core(p);
    lemma_kept(p);
    lemma_trimmed_range(p);
    let t = trim_start(before_core(p));
    let s = t + kept;
    lemma_span(t, op);
    law_classes(kept[0]);
    lemma_span_append(t, kept, op);
    let gap = t.skip(span(t, op) as int);
    assert(s.skip(span(s, op) as int) =~= gap + kept);
    lemma_first_word(gap, word, kept);
    lemma_core(p.core, p.suffix);
    lemma_names_number(p, t, kept);
}

/// The first word behind blanks.
proof fn lemma_first_word(gap: Seq<char>, word: Seq<char>, kept: Seq<char>)
    requires
        is_blank(gap),
        word.len() > 0,
        kept.len() >= word.len(),
        kept.take(word.len() as int) == word,
        forall|i: int| 0 <= i < word.len() ==> !is_space(#[trigger] word[i]),
        kept.len() > word.len() ==> is_space(kept[word.len() as int]),
    ensures
        first_word(gap + kept) == word,
{
    assert(kept[0] == word[0]);
    lemma_span_unique(gap, CharClass::Space, gap.len());
    lemma_span_append(gap, kept, CharClass::Space);
    assert(trim_start(gap + kept) =~= kept);
    assert forall|i: int| 0 <= i < word.len() implies CharClass::NotSpace.has(
        #[trigger] kept[i],
    ) by {
        assert(kept[i] == word[i]);
    }
    lemma_span_unique(kept, CharClass::NotSpace, word.len());
}

/// The numbers end at a pre-release or build metadata.
proof fn lemma_core(core: Seq<char>, suffix: Seq<char>)
    requires
        lacks(core, '-'),
        lacks(core, '+'),
        suffix.len() > 0 ==> suffix[0] == '-' || suffix[0] == '+',
    ensures
        ({
            let word = core + suffix;
            word.take(span(word, CharClass::NotSuffixMark) as int) == core
        }),
{
    let word = core + suffix;
    assert forall|i: int| 0 <= i < core.len() implies CharClass::NotSuffixMark.has(
        #[trigger] word[i],
    ) by {
        assert(word[i] == core[i]);
    }
    if suffix.len() > 0 {
        assert(word[core.len() as int] == suffix[0]);
    }
    lemma_span_unique(word, CharClass::NotSuffixMark, core.len());
    assert(word.take(core.len() as int) =~= core);
}

/// A range with numbers is none of the texts that name no version.
proof fn lemma_names_number(p: RangeParts, t: Seq<char>, kept: Seq<char>)
    requires
        are_parts(p),
        p.core.len() > 0,
        '0' <= p.core[0] <= '9' || p.core[0] == 'x' || p.core[0] == 'X' || p.core[0] == '*',
        t == trim_start(before_core(p)),
        kept == trim_end(p.core + p.suffix + p.rest),
        kept.len() >= p.core.len() + p.suffix.len(),
    ensures
        ({
            let s = t + kept;
            s.len() > 0 && s != "*"@ && s != "latest"@ && !s.contains(':')
        }),
{
    let s = t + kept;
    let tail = p.core + p.suffix + p.rest;
    lemma_before_core(p);
    lemma_trim_end(tail);
    reveal_strlit("*");
    reveal_strlit("latest");
    assert(s.len() == t.len() + kept.len());
    assert("*"@.len() == 1 && "latest"@.len() == 6);
    assert(s[t.len() as int] == p.core[0]);
    if s == "*"@ {
        assert(t.len() == 0 && kept.len() == 1);
        assert(p.core.len() == 1 && p.suffix.len() == 0);
        assert("*"@[0] == '*');
        assert(p.core =~= "*"@);
        assert forall|i: int| 0 <= i < p.rest.len() implies is_space(#[trigger] p.rest[i]) by {
            assert(tail[i + 1] == p.rest[i]);
        }
    }
    if s == "latest"@ {
        assert(t.len() < 6);
        let c = "latest"@[t.len() as int];
        assert(c == 'l' || c == 'a' || c == 't' || c == 'e' || c == 's');
    }
    assert forall|i: int| 0 <= i < s.len() implies #[trigger] s[i] != ':' by {
        if i < t.len() {
            assert(s[i] == t[i]);
        } else {
            let k = i - t.len();
            assert(s[i] == kept[k]);
            assert(kept[k] == tail[k]);
            if k < p.core.len() {
                assert(tail[k] == p.core[k]);
            } else if k < p.core.len() + p.suffix.len() {
                assert(tail[k] == p.suffix[k - p.core.len()]);
            } else {
                assert(tail[k] == p.rest[k - p.core.len() - p.suffix.len()]);
            }
        }
    }
}

/// A range starts from the numbers behind its operators, whatever operators these are,
/// whatever pre-release or build metadata follows, and whatever stands behind the first
/// word. Numbers that are missing and wildcards are 0.
pub proof fn law_range(p: RangeParts, a: u64, b: u64, c: u64)
    requires
        are_parts(p),
        reads_as(p.core, a, b, c),
    ensures
        range_version(range_of(p)) == Some(release(a, b, c)),
{
    lemma_pieces(p.core, a, b, c);
    lemma_range_start(p);
    lemma_release_written(a, b, c);
}

/// A range with a full version behind its operators starts from that version. What
/// follows the first word of a range never changes the version it starts from, and never
/// makes it none.
pub proof fn law_range_start(p: Seq<char>, a: u64, b: u64, c: u64, rest: Seq<char>)
    requires
        is_operators(p),
        rest.len() > 0 ==> is_space(rest[0]),
        lacks(rest, ':'),
    ensures
        range_version(p + release_text(a as nat, b as nat, c as nat) + rest) == Some(
            release(a, b, c),
        ),
{
    let core = release_text(a as nat, b as nat, c as nat);
    let none = Seq::<char>::empty();
    let parts = RangeParts { lead: none, operators: p, gap: none, core, suffix: none, rest };
    lemma_release_chars(a as nat, b as nat, c as nat);
    assert forall|i: int| 0 <= i < core.len() implies !is_space(#[trigger] core[i]) && core[i]
        != ':' && core[i] != '-' && core[i] != '+' by {
        let x = core[i];
        assert('0' <= x <= '9' || x == '.');
    }
    reveal_strlit("*");
    assert("*"@[0] == '*');
    let (x, y, z) = (decimal(a as nat), decimal(b as nat), decimal(c as nat));
    assert(core == dotted(x, dotted(y, z)));
    assert(reads_as(core, a, b, c));
    assert(are_parts(parts));
    law_range(parts, a, b, c);
    assert(range_of(parts) =~= p + core + rest);
}

/// The pieces of a text hold none of the characters that it was split at.
proof fn lemma_split_lacks(s: Seq<char>, c: char)
    ensures
        forall|k: int| 0 <= k < split(s, c).len() ==> lacks(#[trigger] split(s, c)[k], c),
        split(s, c).len() > 0,
    decreases s.len(),
{
    match cut(s, c) {
        Some((before, after)) => {
            lemma_cut_parts(s, c);
            lemma_split_lacks(after, c);
            assert forall|k: int| 0 <= k < split(s, c).len() implies lacks(
                #[trigger] split(s, c)[k],
                c,
            ) by {
                if k > 0 {
                    assert(split(s, c)[k] == split(after, c)[k - 1]);
                }
            }
        },
        None => {
            lemma_span(s, CharClass::Except(c));
            assert forall|i: int| 0 <= i < s.len() implies #[trigger] s[i] != c by {
                assert(CharClass::Except(c).has(s[i]));
            }
        },
    }
}

/// A number that was read in some place of a list is what the piece there stands for.
proof fn lemma_number_at(parts: Seq<Seq<char>>, i: int, n: u64)
    requires
        number_at(parts, i) == decimal(n as nat),
    ensures
        i < parts.len() ==> stands_for(parts[i], n),
        i >= parts.len() ==> n == 0,
{
    law_decimal(n as nat);
    assert(seq!['0'][0] == '0');
}

/// Dotted pieces that are written as three numbers stand for them.
proof fn lemma_reads_as(core: Seq<char>, a: u64, b: u64, c: u64)
    requires
        full_numbers(core) == release_text(a as nat, b as nat, c as nat),
    ensures
        reads_as(core, a, b, c),
{
    let parts = split(core, '.');
    lemma_split_lacks(core, '.');
    let (x, y, z) = (number_at(parts, 0), number_at(parts, 1), number_at(parts, 2));
    assert(lacks(x, '.') && lacks(y, '.'));
    law_decimal(a as nat);
    law_decimal(b as nat);
    lemma_cut_made(x, '.', dotted(y, z));
    lemma_cut_made(decimal(a as nat), '.', dotted(decimal(b as nat), decimal(c as nat)));
    assert(x == decimal(a as nat));
    assert(dotted(y, z) == dotted(decimal(b as nat), decimal(c as nat)));
    lemma_cut_made(y, '.', z);
    lemma_cut_made(decimal(b as nat), '.', decimal(c as nat));
    lemma_number_at(parts, 0, a);
    lemma_number_at(parts, 1, b);
    lemma_number_at(parts, 2, c);
    match cut(core, '.') {
        None => {
            assert(parts[0] == core);
        },
        Some((first, after)) => {
            lemma_cut_parts(core, '.');
            assert(core == dotted(first, after));
            assert(parts =~= seq![first] + split(after, '.'));
            match cut(after, '.') {
                None => {
                    assert(parts[1] == after);
                    assert(core == dotted(first, after));
                },
                Some((second, left)) => {
                    lemma_cut_parts(after, '.');
                    assert(after == dotted(second, left));
                    assert(split(after, '.') =~= seq![second] + split(left, '.'));
                    assert(parts[1] == second);
                    assert(parts[2] == split(left, '.')[0]);
                    match cut(left, '.') {
                        None => {
                            assert(parts[2] == left);
                            assert(core == dotted(first, dotted(second, left)));
                        },
                        Some((third, more)) => {
                            lemma_cut_parts(left, '.');
                            assert(parts[2] == third);
                            assert(core == dotted(first, dotted(second, dotted(third, more))));
                        },
                    }
                },
            }
        },
    }
}

/// The operators of a text, and what follows them.
proof fn lemma_operators(s: Seq<char>) -> (r: (Seq<char>, Seq<char>))
    ensures
        s == r.0 + r.1,
        is_operators(r.0),
        r.1 == s.skip(span(s, CharClass::RangeOperator) as int),
{
    let op = CharClass::RangeOperator;
    lemma_span(s, op);
    let e = span(s, op) as int;
    let operators = s.take(e);
    assert forall|i: int| 0 <= i < operators.len() implies "^~><=v "@.contains(
        #[trigger] operators[i],
    ) by {
        assert(op.has(s[i]));
        law_classes(s[i]);
    }
    assert(s =~= operators + s.skip(e));
    (operators, s.skip(e))
}

/// The blanks before the first word of a text, the word, and what is left behind it.
proof fn lemma_word(u: Seq<char>) -> (r: (Seq<char>, Seq<char>))
    ensures
        u == r.0 + (first_word(u) + r.1),
        is_blank(r.0),
        forall|i: int| 0 <= i < first_word(u).len() ==> !is_space(#[trigger] first_word(u)[i]),
        r.1.len() > 0 ==> is_space(r.1[0]),
{
    lemma_span(u, CharClass::Space);
    let g = span(u, CharClass::Space) as int;
    let gap = u.take(g);
    let w = trim_start(u);
    lemma_span(w, CharClass::NotSpace);
    let m = span(w, CharClass::NotSpace) as int;
    let left = w.skip(m);
    assert forall|i: int| 0 <= i < gap.len() implies is_space(#[trigger] gap[i]) by {
        assert(CharClass::Space.has(u[i]));
    }
    assert forall|i: int| 0 <= i < first_word(u).len() implies !is_space(
        #[trigger] first_word(u)[i],
    ) by {
        assert(CharClass::NotSpace.has(w[i]));
    }
    assert(u =~= gap + (first_word(u) + left));
    (gap, left)
}

/// The numbers of a word, and the pre-release or build metadata behind them.
proof fn lemma_suffix(word: Seq<char>) -> (suffix: Seq<char>)
    ensures
        ({
            let core = word.take(span(word, CharClass::NotSuffixMark) as int);
            &&& word == core + suffix
            &&& lacks(core, '-') && lacks(core, '+')
            &&& suffix.len() > 0 ==> suffix[0] == '-' || suffix[0] == '+'
        }),
{
    lemma_span(word, CharClass::NotSuffixMark);
    let k = span(word, CharClass::NotSuffixMark) as int;
    let core = word.take(k);
    assert forall|i: int| 0 <= i < core.len() implies #[trigger] core[i] != '-' && core[i]
        != '+' by {
        assert(CharClass::NotSuffixMark.has(word[i]));
    }
    assert(word =~= core + word.skip(k));
    word.skip(k)
}

/// Parts of a text without a colon have none.
proof fn lemma_parts_lack(s: Seq<char>, a: Seq<char>, b: Seq<char>)
    requires
        s == a + b,
        lacks(s, ':'),
    ensures
        lacks(a, ':'),
        lacks(b, ':'),
{
    assert forall|i: int| 0 <= i < a.len() implies #[trigger] a[i] != ':' by {
        assert(s[i] == a[i]);
    }
    assert forall|i: int| 0 <= i < b.len() implies #[trigger] b[i] != ':' by {
        assert(s[a.len() + i] == b[i]);
    }
}

/// A text between the blanks that are trimmed from it.
proof fn lemma_trimmed(range: Seq<char>) -> (r: (Seq<char>, Seq<char>))
    ensures
        range == r.0 + (trim(range) + r.1),
        is_blank(r.0),
        is_blank(r.1),
{
    lemma_span(range, CharClass::Space);
    let n = span(range, CharClass::Space) as int;
    let lead = range.take(n);
    let t = trim_start(range);
    lemma_trim_end(t);
    let s = trim(range);
    let tail = t.skip(s.len() as int);
    assert forall|i: int| 0 <= i < lead.len() implies is_space(#[trigger] lead[i]) by {
        assert(CharClass::Space.has(range[i]));
    }
    assert forall|i: int| 0 <= i < tail.len() implies is_space(#[trigger] tail[i]) by {
        assert(tail[i] == t[s.len() + i]);
    }
    assert(t =~= s + tail);
    assert(range =~= lead + t);
    (lead, tail)
}

/// A single star among blanks is what is left of it.
proof fn lemma_star(p: RangeParts, s: Seq<char>, left: Seq<char>, tail: Seq<char>)
    requires
        s == p.operators + (p.gap + (p.core + p.suffix + left)),
        p.rest == left + tail,
        s.len() > 0 ==> !is_space(s[0]) && !is_space(s.last()),
        p.core == "*"@,
        p.suffix.len() == 0,
        is_blank(p.rest),
        is_blank(before_core(p)),
    ensures
        s == "*"@,
{
    reveal_strlit("*");
    let q = before_core(p);
    let n = (p.operators.len() + p.gap.len()) as int;
    if n > 0 {
        assert(s[0] == q[p.lead.len() as int]);
        assert(is_space(q[p.lead.len() as int]));
    }
    if left.len() > 0 {
        assert(s.last() == left.last());
        assert(p.rest[left.len() - 1] == left.last());
    }
    assert(s =~= "*"@);
}

/// A range that starts from a version is made of blanks, operators and dotted numbers that
/// stand for it, in front of anything without a colon.
pub proof fn law_range_parts(range: Seq<char>) -> (p: RangeParts)
    requires
        range_version(range) is Some,
    ensures
        are_parts(p),
        range == range_of(p),
        ({
            let v = range_version(range)->0;
            reads_as(p.core, v.major, v.minor, v.patch) && v == release(v.major, v.minor, v.patch)
        }),
{
    let s = trim(range);
    let (lead, tail) = lemma_trimmed(range);
    let (operators, u) = lemma_operators(s);
    let (gap, left) = lemma_word(u);
    let word = first_word(u);
    let suffix = lemma_suffix(word);
    let core = word.take(span(word, CharClass::NotSuffixMark) as int);
    let p = RangeParts { lead, operators, gap, core, suffix, rest: left + tail };
    assert(range_start(range) == Some(core));
    let (a, b, c) = choose|a: u64, b: u64, c: u64|
        full_numbers(core) == #[trigger] release_text(a as nat, b as nat, c as nat);
    lemma_release_written(a, b, c);
    lemma_reads_as(core, a, b, c);
    assert(lacks(s, ':'));
    lemma_parts_lack(s, operators, u);
    lemma_parts_lack(u, gap, word + left);
    lemma_parts_lack(word + left, word, left);
    lemma_parts_lack(word, core, suffix);
    lemma_assembled(p, range, s, left, tail);
    p
}

/// The parts of a range are sound where those of the trimmed range are.
proof fn lemma_assembled(
    p: RangeParts,
    range: Seq<char>,
    s: Seq<char>,
    left: Seq<char>,
    tail: Seq<char>,
)
    requires
        range == p.lead + (s + tail),
        s == trim(range),
        s.len() > 0,
        s != "*"@,
        s == p.operators + (p.gap + (p.core + p.suffix + left)),
        p.rest == left + tail,
        is_blank(p.lead) && is_blank(tail),
        is_operators(p.operators),
        is_blank(p.gap),
        forall|i: int|
            0 <= i < (p.core + p.suffix).len() ==> !is_space(#[trigger] (p.core + p.suffix)[i]),
        lacks(p.core, ':') && lacks(p.suffix, ':') && lacks(left, ':'),
        lacks(p.core, '-') && lacks(p.core, '+'),
        p.suffix.len() > 0 ==> p.suffix[0] == '-' || p.suffix[0] == '+',
        left.len() > 0 ==> is_space(left[0]),
    ensures
        are_parts(p),
        range == range_of(p),
{
    let word = p.core + p.suffix;
    assert forall|i: int| 0 <= i < p.core.len() implies !is_space(#[trigger] p.core[i]) by {
        assert(word[i] == p.core[i]);
    }
    assert forall|i: int| 0 <= i < p.suffix.len() implies !is_space(#[trigger] p.suffix[i]) by {
        assert(word[p.core.len() + i] == p.suffix[i]);
    }
    assert forall|i: int| 0 <= i < p.rest.len() implies #[trigger] p.rest[i] != ':' by {
        if i < left.len() {
            assert(p.rest[i] == left[i]);
        } else {
            assert(is_space(tail[i - left.len()]));
        }
    }
    if p.rest.len() > 0 {
        if left.len() > 0 {
            assert(p.rest[0] == left[0]);
        } else {
            assert(p.rest[0] == tail[0]);
        }
    }
    assert(range =~= range_of(p));
    lemma_ends(range);
    if p.core == "*"@ && p.suffix.len() == 0 && is_blank(p.rest) && is_blank(before_core(p)) {
        lemma_star(p, s, left, tail);
    }
}

/// What is trimmed has no blank at its ends.
proof fn lemma_ends(range: Seq<char>)
    ensures
        trim(range).len() > 0 ==> !is_space(trim(range)[0]) && !is_space(trim(range).last()),
{
    lemma_span(range, CharClass::Space);
    let t = trim_start(range);
    lemma_trim_end(t);
    if trim(range).len() > 0 {
        assert(trim(range)[0] == t[0]);
    }
}

/// What names no version: nothing, a single `*`, the tag `latest`, and everything with a
/// colon, each with any blanks around it.
pub proof fn law_no_range(lead: Seq<char>, text: Seq<char>, tail: Seq<char>)
    requires
        is_blank(lead),
        is_blank(tail),
        text.len() == 0 || text == "*"@ || text == "latest"@ || !lacks(text, ':'),
    ensures
        range_version(lead + text + tail) is None,
{
    let range = lead + text + tail;
    if range_version(range) is Some {
        let p = law_range_parts(range);
        let v = range_version(range)->0;
        lemma_pieces(p.core, v.major, v.minor, v.patch);
        lemma_before_core(p);
        reveal_strlit("*");
        reveal_strlit("latest");
        let q = before_core(p);
        let n = q.len() as int;
        assert(range[n] == p.core[0]);
        if !lacks(text, ':') {
            let i = choose|i: int| 0 <= i < text.len() && text[i] == ':';
            lemma_no_colon(p, lead.len() + i);
            assert(range[lead.len() + i] == text[i]);
        } else if n < lead.len() {
            assert(range[n] == lead[n]);
        } else if n >= lead.len() + text.len() {
            assert(range[n] == tail[n - lead.len() - text.len()]);
        } else if text == "latest"@ {
            let c = "latest"@[n - lead.len()];
            assert(c == 'l' || c == 'a' || c == 't' || c == 'e' || c == 's');
            assert(range[n] == c);
        } else {
            assert(text == "*"@ && n == lead.len());
            assert("*"@[0] == '*');
            lemma_lone_star(p, lead, tail);
        }
    }
}

/// Nothing in a range is a colon.
proof fn lemma_no_colon(p: RangeParts, i: int)
    requires
        are_parts(p),
        0 <= i < range_of(p).len(),
    ensures
        range_of(p)[i] != ':',
{
    let q = before_core(p);
    let s = range_of(p);
    let tail = p.core + p.suffix + p.rest;
    if i < q.len() {
        assert(s[i] == q[i]);
        if i < p.lead.len() {
            assert(q[i] == p.lead[i]);
        } else if i < p.lead.len() + p.operators.len() {
            let c = p.operators[i - p.lead.len()];
            assert(q[i] == c);
            law_classes(c);
        } else {
            assert(q[i] == p.gap[i - p.lead.len() - p.operators.len()]);
        }
    } else {
        let k = i - q.len();
        assert(s[i] == tail[k]);
        if k < p.core.len() {
            assert(tail[k] == p.core[k]);
        } else if k < p.core.len() + p.suffix.len() {
            assert(tail[k] == p.suffix[k - p.core.len()]);
        } else {
            assert(tail[k] == p.rest[k - p.core.len() - p.suffix.len()]);
        }
    }
}

/// A star among blanks has blanks around it alone.
proof fn lemma_lone_star(p: RangeParts, lead: Seq<char>, tail: Seq<char>)
    requires
        are_parts(p),
        p.core.len() > 0,
        is_blank(lead),
        is_blank(tail),
        range_of(p) == lead + "*"@ + tail,
        before_core(p).len() == lead.len(),
    ensures
        p.core == "*"@,
        p.suffix.len() == 0,
        is_blank(p.rest),
        is_blank(before_core(p)),
{
    reveal_strlit("*");
    let s = range_of(p);
    let q = before_core(p);
    let n = q.len() as int;
    let other = lead + "*"@ + tail;
    assert("*"@.len() == 1);
    assert(other.len() == lead.len() + 1 + tail.len());
    assert(s.len() == q.len() + p.core.len() + p.suffix.len() + p.rest.len());
    assert forall|i: int| 0 <= i < q.len() implies is_space(#[trigger] q[i]) by {
        assert(s[i] == q[i] && other[i] == lead[i]);
    }
    assert(s[n] == p.core[0] && other[n] == '*');
    if p.core.len() > 1 {
        assert(s[n + 1] == p.core[1]);
        assert(other[n + 1] == tail[0]);
    } else if p.suffix.len() > 0 {
        assert(s[n + 1] == p.suffix[0]);
        assert(other[n + 1] == tail[0]);
    } else {
        assert(p.core =~= "*"@);
        assert forall|i: int| 0 <= i < p.rest.len() implies is_space(#[trigger] p.rest[i]) by {
            assert(s[n + 1 + i] == p.rest[i]);
            assert(other[n + 1 + i] == tail[i]);
        }
    }
}

} // verus!

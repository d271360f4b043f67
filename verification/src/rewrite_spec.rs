//! What a rewritten version text says.
use crate::edit::{
    from_number, lemma_from_number, lemma_range_prefix, range_prefix, rewritten, starts_wild,
};
use crate::text::{
    cut, decimal, is_space, lacks, lemma_cut_made, lemma_span, lemma_span_concat, lemma_span_unique,
    lemma_trim_end, span, split, trim, trim_start, CharClass,
};
use crate::version::{
    first_word, full_numbers, is_identifier_char, lemma_decimal_digits, lemma_release_written,
    number_at, range_start, range_version, release, release_text, release_written, version_text,
    well_formed, VersionView,
};
use vstd::prelude::*;

verus! {

/// A run ends where something else begins.
pub proof fn lemma_span_append(a: Seq<char>, b: Seq<char>, class: CharClass)
    requires
        b.len() > 0,
        !class.has(b[0]),
    ensures
        span(a + b, class) == span(a, class),
{
    lemma_span(a, class);
    if span(a, class) < a.len() {
        lemma_span_concat(a, b, class);
    } else {
        assert forall|i: int| 0 <= i < a.len() implies class.has(#[trigger] (a + b)[i]) by {
            assert((a + b)[i] == a[i]);
        }
        assert((a + b)[a.len() as int] == b[0]);
        lemma_span_unique(a + b, class, a.len());
    }
}

/// The characters of three numbers with dots between them.
pub proof fn lemma_release_chars(a: nat, b: nat, c: nat)
    ensures
        release_text(a, b, c).len() > 0,
        '0' <= release_text(a, b, c)[0] <= '9',
        '0' <= release_text(a, b, c).last() <= '9',
        forall|i: int|
            0 <= i < release_text(a, b, c).len() ==> {
                let x = #[trigger] release_text(a, b, c)[i];
                '0' <= x <= '9' || x == '.'
            },
{
    lemma_decimal_digits(a);
    lemma_decimal_digits(b);
    lemma_decimal_digits(c);
    let text = release_text(a, b, c);
    let (x, y, z) = (decimal(a), decimal(b), decimal(c));
    assert(text.len() == x.len() + y.len() + z.len() + 2);
    assert forall|i: int| 0 <= i < text.len() implies {
        let u = #[trigger] text[i];
        '0' <= u <= '9' || u == '.'
    } by {
        if i < x.len() {
            assert(text[i] == x[i]);
        } else if i > x.len() && i < x.len() + 1 + y.len() {
            assert(text[i] == y[i - x.len() - 1]);
        } else if i > x.len() + 1 + y.len() {
            assert(text[i] == z[i - x.len() - 2 - y.len()]);
        }
    }
    assert(text[0] == x[0]);
    assert(text.last() == z.last());
}

/// A version begins with a digit, and holds letters, digits, hyphens, dots and plus
/// signs alone.
pub proof fn lemma_version_chars(v: VersionView)
    requires
        well_formed(v),
    ensures
        version_text(v).len() > 0,
        '0' <= version_text(v)[0] <= '9',
        forall|i: int|
            0 <= i < version_text(v).len() ==> {
                let x = #[trigger] version_text(v)[i];
                is_identifier_char(x) || x == '+'
            },
        ({
            let numbers = release_text(v.major as nat, v.minor as nat, v.patch as nat);
            &&& version_text(v).len() >= numbers.len()
            &&& version_text(v).take(numbers.len() as int) == numbers
            &&& version_text(v).len() > numbers.len() ==> version_text(v)[numbers.len() as int]
                == '-' || version_text(v)[numbers.len() as int] == '+'
        }),
{
    let numbers = release_text(v.major as nat, v.minor as nat, v.patch as nat);
    lemma_release_chars(v.major as nat, v.minor as nat, v.patch as nat);
    let text = version_text(v);
    let head = numbers + (if v.pre.len() > 0 {
        seq!['-'] + v.pre
    } else {
        seq![]
    });
    assert forall|i: int| 0 <= i < text.len() implies {
        let x = #[trigger] text[i];
        is_identifier_char(x) || x == '+'
    } by {
        if i < numbers.len() {
            assert(text[i] == numbers[i]);
        } else if i < head.len() {
            if i > numbers.len() {
                assert(text[i] == v.pre[i - numbers.len() - 1]);
            }
        } else if i > head.len() {
            assert(text[i] == v.build[i - head.len() - 1]);
        }
    }
    assert(text.take(numbers.len() as int) =~= numbers);
    assert(text[0] == numbers[0]);
}

/// A text that goes on leaves where its first number is.
proof fn lemma_from_number_concat(x: Seq<char>, y: Seq<char>)
    requires
        from_number(x).len() > 0,
    ensures
        from_number(x + y) == from_number(x) + y,
{
    lemma_span(x, CharClass::Space);
    let t = trim_start(x);
    lemma_span(t, CharClass::RangeOperator);
    let b = span(t, CharClass::RangeOperator) as int;
    let u = t.skip(b);
    lemma_span(u, CharClass::Space);
    lemma_span_concat(x, y, CharClass::Space);
    assert(trim_start(x + y) =~= t + y);
    lemma_span_concat(t, y, CharClass::RangeOperator);
    assert((t + y).skip(b) =~= u + y);
    lemma_span_concat(u, y, CharClass::Space);
    assert(trim_start(u + y) =~= trim_start(u) + y);
}

/// A rewritten text does not start with a wildcard.
proof fn lemma_not_wild(spec_text: Seq<char>, v: VersionView)
    requires
        well_formed(v),
    ensures
        !starts_wild(rewritten(spec_text, v)),
{
    lemma_version_chars(v);
    lemma_range_prefix(spec_text);
    let p = range_prefix(spec_text);
    let text = version_text(v);
    let new = rewritten(spec_text, v);
    let n = from_number(new);
    let at = new.len() - n.len();
    lemma_from_number(new);
    lemma_from_number(p);
    lemma_from_number(spec_text);
    if starts_wild(new) {
        if at >= p.len() {
            assert(new[p.len() as int] == text[0]);
            assert(n[0] == new[at]);
            assert(at == p.len());
        } else {
            assert(n[0] == new[at]);
            assert(new[at] == p[at]);
            if from_number(p).len() == 0 {
                assert(is_space(p[at]) || CharClass::RangeOperator.has(p[at]));
            } else {
                let rest = spec_text.skip(p.len() as int);
                assert(spec_text =~= p + rest);
                lemma_from_number_concat(p, text);
                lemma_from_number_concat(p, rest);
                let q = from_number(p);
                if starts_wild(spec_text) {
                    assert(from_number(spec_text).len() >= q.len() + rest.len());
                } else if q.len() > 1 {
                    assert(n[1] == q[1] && from_number(spec_text)[1] == q[1]);
                    assert(n[0] == q[0] && from_number(spec_text)[0] == q[0]);
                } else {
                    assert(n[1] == text[0]);
                }
            }
        }
    }
}

/// A rewritten text keeps its range operator.
proof fn lemma_prefix_kept(spec_text: Seq<char>, v: VersionView)
    requires
        well_formed(v),
    ensures
        range_prefix(rewritten(spec_text, v)) == range_prefix(spec_text),
{
    lemma_not_wild(spec_text, v);
    lemma_version_chars(v);
    lemma_range_prefix(spec_text);
    let prefix = range_prefix(spec_text);
    let class = CharClass::NotDigit;
    lemma_span_unique(prefix, class, prefix.len());
    lemma_span_append(prefix, version_text(v), class);
    assert(rewritten(spec_text, v).take(prefix.len() as int) =~= prefix);
}

/// Rewriting to a version and then to another one is rewriting to the other one;
/// rewriting to the same version twice is rewriting to it once.
pub proof fn law_rewrite_again(spec_text: Seq<char>, v: VersionView, w: VersionView)
    requires
        well_formed(v),
    ensures
        rewritten(rewritten(spec_text, v), w) == rewritten(spec_text, w),
{
    lemma_prefix_kept(spec_text, v);
}

/// Whether a text is made of blanks, the operators `^ ~ > = < v`, and blanks.
spec fn is_plain_operator(prefix: Seq<char>) -> bool {
    let t = trim_start(prefix);
    let rest = t.skip(span(t, CharClass::RangeOperator) as int);
    forall|i: int| 0 <= i < rest.len() ==> is_space(#[trigger] rest[i])
}

pub proof fn lemma_split_release(a: nat, b: nat, c: nat)
    ensures
        split(release_text(a, b, c), '.') == seq![decimal(a), decimal(b), decimal(c)],
{
    lemma_decimal_digits(a);
    lemma_decimal_digits(b);
    lemma_decimal_digits(c);
    let last = decimal(c);
    let mid = decimal(b) + seq!['.'] + last;
    lemma_cut_made(decimal(a), '.', mid);
    lemma_cut_made(decimal(b), '.', last);
    lemma_span(last, CharClass::Except('.'));
    assert forall|i: int| 0 <= i < last.len() implies CharClass::Except('.').has(
        #[trigger] last[i],
    ) by {}
    lemma_span_unique(last, CharClass::Except('.'), last.len());
    assert(cut(last, '.') is None);
    assert(split(last, '.') == seq![last]);
    assert(split(mid, '.') == seq![decimal(b)] + seq![last]);
    assert(split(release_text(a, b, c), '.') == seq![decimal(a)] + (seq![decimal(b)] + seq![last]));
    assert(seq![decimal(a)] + (seq![decimal(b)] + seq![last]) =~= seq![
        decimal(a),
        decimal(b),
        decimal(c),
    ]);
}

proof fn lemma_full_release(a: nat, b: nat, c: nat)
    ensures
        full_numbers(release_text(a, b, c)) == release_text(a, b, c),
{
    lemma_split_release(a, b, c);
    let parts = split(release_text(a, b, c), '.');
    reveal_strlit("x");
    reveal_strlit("X");
    reveal_strlit("*");
    assert("x"@[0] == 'x' && "X"@[0] == 'X' && "*"@[0] == '*');
    lemma_decimal_digits(a);
    lemma_decimal_digits(b);
    lemma_decimal_digits(c);
    assert('0' <= parts[0][0] <= '9' && '0' <= parts[1][0] <= '9' && '0' <= parts[2][0] <= '9');
    assert(number_at(parts, 0) == decimal(a));
    assert(number_at(parts, 1) == decimal(b));
    assert(number_at(parts, 2) == decimal(c));
}

/// The numbers are what a version is read up to.
proof fn lemma_core_of_version(rest: Seq<char>, v: VersionView)
    requires
        well_formed(v),
        forall|i: int| 0 <= i < rest.len() ==> is_space(#[trigger] rest[i]),
    ensures
        ({
            let word = first_word(rest + version_text(v));
            word.take(span(word, CharClass::NotSuffixMark) as int) == release_text(
                v.major as nat,
                v.minor as nat,
                v.patch as nat,
            )
        }),
{
    let text = version_text(v);
    let numbers = release_text(v.major as nat, v.minor as nat, v.patch as nat);
    lemma_version_chars(v);
    assert forall|i: int| 0 <= i < rest.len() implies CharClass::Space.has(#[trigger] rest[i]) by {}
    lemma_span_unique(rest, CharClass::Space, rest.len());
    lemma_span_append(rest, text, CharClass::Space);
    assert(trim_start(rest + text) =~= text);
    assert forall|i: int| 0 <= i < text.len() implies CharClass::NotSpace.has(
        #[trigger] text[i],
    ) by {
        assert(is_identifier_char(text[i]) || text[i] == '+');
    }
    lemma_span_unique(text, CharClass::NotSpace, text.len());
    assert(first_word(rest + text) =~= text);
    lemma_release_chars(v.major as nat, v.minor as nat, v.patch as nat);
    assert forall|i: int| 0 <= i < numbers.len() implies CharClass::NotSuffixMark.has(
        #[trigger] text[i],
    ) by {
        assert(text.take(numbers.len() as int)[i] == text[i]);
        assert(numbers[i] == text[i]);
    }
    lemma_span_unique(text, CharClass::NotSuffixMark, numbers.len());
}

/// A version behind blanks and operators is none of the texts that name no version.
proof fn lemma_names_version(t: Seq<char>, v: VersionView)
    requires
        well_formed(v),
        forall|i: int|
            0 <= i < t.len() ==> is_space(#[trigger] t[i]) || CharClass::RangeOperator.has(t[i]),
    ensures
        ({
            let s = t + version_text(v);
            s.len() > 0 && s != "*"@ && s != "latest"@ && !s.contains(':')
        }),
{
    let text = version_text(v);
    let s = t + text;
    lemma_version_chars(v);
    reveal_strlit("*");
    reveal_strlit("latest");
    assert(s[t.len() as int] == text[0]);
    assert("*"@[0] == '*');
    assert(s != "*"@);
    assert(s != "latest"@) by {
        if s == "latest"@ {
            assert(t.len() < 6);
            let c = "latest"@[t.len() as int];
            assert(c == 'l' || c == 'a' || c == 't' || c == 'e' || c == 's');
        }
    }
    assert forall|i: int| 0 <= i < s.len() implies #[trigger] s[i] != ':' by {
        if i < t.len() {
            assert(s[i] == t[i]);
        } else {
            assert(s[i] == text[i - t.len()]);
            assert(is_identifier_char(text[i - t.len()]) || text[i - t.len()] == '+');
        }
    }
}

/// What is read behind an operator from a version as it is written: its numbers.
proof fn lemma_start_of_version(prefix: Seq<char>, v: VersionView)
    requires
        well_formed(v),
        is_plain_operator(prefix),
    ensures
        range_start(prefix + version_text(v)) == Some(
            release_text(v.major as nat, v.minor as nat, v.patch as nat),
        ),
{
    let text = version_text(v);
    lemma_version_chars(v);
    let range = prefix + text;
    lemma_span(prefix, CharClass::Space);
    lemma_span_append(prefix, text, CharClass::Space);
    let t = trim_start(prefix);
    let s = t + text;
    assert(trim_start(range) =~= s);
    assert(s.last() == text.last());
    assert(is_identifier_char(text[text.len() - 1]) || text[text.len() - 1] == '+');
    assert(trim(range) == s);
    let operator = CharClass::RangeOperator;
    lemma_span(t, operator);
    lemma_span_append(t, text, operator);
    let rest = t.skip(span(t, operator) as int);
    assert(s.skip(span(s, operator) as int) =~= rest + text);
    lemma_core_of_version(rest, v);
    assert forall|i: int| 0 <= i < t.len() implies is_space(#[trigger] t[i]) || operator.has(
        t[i],
    ) by {
        if i >= span(t, operator) {
            assert(is_space(rest[i - span(t, operator)]));
        }
    }
    lemma_names_version(t, v);
}

/// What stands before the first number is a plain operator.
proof fn lemma_plain_operator(s: Seq<char>)
    ensures
        is_plain_operator(s.take(s.len() - from_number(s).len())),
{
    lemma_from_number(s);
    let at = s.len() - from_number(s).len();
    let prefix = s.take(at);
    let t = trim_start(s);
    lemma_span(s, CharClass::Space);
    let a = span(s, CharClass::Space);
    lemma_span(t, CharClass::RangeOperator);
    let b = span(t, CharClass::RangeOperator);
    let u = t.skip(b as int);
    lemma_span(u, CharClass::Space);
    let c = span(u, CharClass::Space);
    assert(at == a + b + c);
    assert forall|i: int| 0 <= i < a implies CharClass::Space.has(#[trigger] prefix[i]) by {
        assert(prefix[i] == s[i]);
    }
    if a < prefix.len() {
        assert(prefix[a as int] == s[a as int]);
    }
    lemma_span_unique(prefix, CharClass::Space, a);
    let p = trim_start(prefix);
    assert(p =~= t.take((b + c) as int));
    assert forall|i: int| 0 <= i < b implies CharClass::RangeOperator.has(#[trigger] p[i]) by {
        assert(p[i] == t[i]);
    }
    if b < p.len() {
        assert(p[b as int] == t[b as int]);
    }
    lemma_span_unique(p, CharClass::RangeOperator, b);
    let rest = p.skip(b as int);
    assert(rest =~= u.take(c as int));
    assert forall|i: int| 0 <= i < rest.len() implies is_space(#[trigger] rest[i]) by {
        assert(CharClass::Space.has(u[i]));
    }
}

/// The first piece of a text ends at the first of the characters.
proof fn lemma_first_piece(s: Seq<char>, c: char)
    ensures
        split(s, c).len() > 0,
        split(s, c)[0] == s.take(span(s, CharClass::Except(c)) as int),
        lacks(split(s, c)[0], c),
{
    lemma_span(s, CharClass::Except(c));
    let first = s.take(span(s, CharClass::Except(c)) as int);
    assert forall|i: int| 0 <= i < first.len() implies #[trigger] first[i] != c by {
        assert(CharClass::Except(c).has(s[i]));
    }
    if cut(s, c) is None {
        assert(first =~= s);
    }
}

/// What a range that starts from a version starts with: a number or a wildcard.
proof fn lemma_first_number(core: Seq<char>)
    requires
        release_written(full_numbers(core)) is Some,
    ensures
        core.len() > 0,
        ({
            let first = split(core, '.')[0];
            ||| first == "x"@ || first == "X"@ || first == "*"@
            ||| '0' <= core[0] <= '9'
        }),
{
    let text = full_numbers(core);
    let parts = split(core, '.');
    let (a, b, c) = choose|a: u64, b: u64, c: u64|
        text == #[trigger] release_text(a as nat, b as nat, c as nat);
    lemma_first_piece(core, '.');
    let first = number_at(parts, 0);
    let rest = number_at(parts, 1) + seq!['.'] + number_at(parts, 2);
    assert(lacks(first, '.'));
    lemma_cut_made(first, '.', rest);
    lemma_decimal_digits(a as nat);
    assert(lacks(decimal(a as nat), '.'));
    lemma_cut_made(decimal(a as nat), '.', decimal(b as nat) + seq!['.'] + decimal(c as nat));
    assert(first == decimal(a as nat));
    reveal_strlit("x");
    reveal_strlit("X");
    reveal_strlit("*");
    if parts[0] == "x"@ || parts[0] == "X"@ || parts[0] == "*"@ {
    } else {
        assert(parts[0] == first);
        assert(core[0] == first[0]);
    }
}

/// A range that starts from a version has a number or a wildcard behind its operator.
#[verifier::rlimit(30)]
proof fn lemma_number_found(s: Seq<char>)
    requires
        range_version(s) is Some,
    ensures
        from_number(s).len() > 0,
        '0' <= from_number(s)[0] <= '9' || starts_wild(s),
{
    let op = CharClass::RangeOperator;
    let t = trim_start(s);
    let m = trim(s);
    lemma_trim_end(t);
    let tail = t.skip(m.len() as int);
    assert(t =~= m + tail);
    let b = span(m, op) as int;
    lemma_span(m, op);
    let r = m.skip(b);
    let w = trim_start(r);
    lemma_span(r, CharClass::Space);
    let word = first_word(r);
    lemma_span(w, CharClass::NotSpace);
    let core = range_start(s)->0;
    lemma_span(word, CharClass::NotSuffixMark);
    lemma_first_number(core);
    assert(word.len() > 0 && r.len() > 0);
    lemma_span_concat(m, tail, op);
    assert(t.skip(b) =~= r + tail);
    lemma_span_concat(r, tail, CharClass::Space);
    let n = from_number(s);
    assert(n =~= w + tail);
    assert(n[0] == w[0] && w[0] == word[0] && word[0] == core[0]);
    if !('0' <= n[0] <= '9') {
        let first = split(core, '.')[0];
        lemma_first_piece(core, '.');
        lemma_span(core, CharClass::Except('.'));
        reveal_strlit("x");
        reveal_strlit("X");
        reveal_strlit("*");
        assert(first.len() == 1);
        assert(first[0] == core[0]);
        assert("x"@[0] == 'x' && "X"@[0] == 'X' && "*"@[0] == '*');
        if n.len() > 1 {
            if w.len() == 1 {
                assert(n[1] == tail[0]);
                assert(tail[0] == t[m.len() as int]);
            } else {
                assert(n[1] == w[1]);
                if word.len() > 1 {
                    assert(word[1] == w[1]);
                    if core.len() > 1 {
                        assert(core[1] == word[1]);
                    }
                }
            }
        }
    }
}

/// Before the version of a range stand blanks and the operators `^ ~ > = < v` alone, and
/// these are kept when it is rewritten.
pub proof fn law_operator(s: Seq<char>)
    requires
        range_version(s) is Some,
    ensures
        range_prefix(s) == s.take(s.len() - from_number(s).len()),
{
    lemma_number_found(s);
    if !starts_wild(s) {
        lemma_from_number(s);
        let n = from_number(s);
        let at = (s.len() - n.len()) as nat;
        assert forall|i: int| 0 <= i < at implies CharClass::NotDigit.has(#[trigger] s[i]) by {
            assert(is_space(s[i]) || CharClass::RangeOperator.has(s[i]));
        }
        assert(s[at as int] == n[0]);
        lemma_span_unique(s, CharClass::NotDigit, at);
    }
}

/// A rewritten range starts from the numbers of the version it was rewritten to.
pub proof fn law_rewrite_reads_back(spec_text: Seq<char>, v: VersionView)
    requires
        range_version(spec_text) is Some,
        well_formed(v),
    ensures
        range_version(rewritten(spec_text, v)) == Some(release(v.major, v.minor, v.patch)),
{
    law_operator(spec_text);
    lemma_plain_operator(spec_text);
    lemma_start_of_version(range_prefix(spec_text), v);
    lemma_full_release(v.major as nat, v.minor as nat, v.patch as nat);
    lemma_release_written(v.major, v.minor, v.patch);
}

} // verus!

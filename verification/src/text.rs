//! Text as a sequence of characters, with the scanning primitives the manifest
//! readers are built from.
use vstd::prelude::*;
use vstd::slice::slice_subrange;
use vstd::string::*;
use vstd::utf8::*;

verus! {

/// `String::push`: appends one character to the end of the text.
pub assume_specification [String::push](text: &mut String, c: char)
    ensures
        final(text)@ == old(text)@.push(c),
;

/// The number of bytes that the text takes in UTF-8: columns count in these.
pub open spec fn byte_len(s: Seq<char>) -> nat {
    encode_utf8(s).len()
}

/// The number of bytes that one character takes in UTF-8.
pub open spec fn byte_width(c: char) -> nat {
    if c as u32 <= 0x7F {
        1
    } else if c as u32 <= 0x7FF {
        2
    } else if c as u32 <= 0xFFFF {
        3
    } else {
        4
    }
}

/// The characters with the Unicode property White_Space.
pub open spec fn is_space(c: char) -> bool {
    ||| '\u{9}' <= c <= '\u{d}'
    ||| c == ' '
    ||| c == '\u{85}'
    ||| c == '\u{a0}'
    ||| c == '\u{1680}'
    ||| '\u{2000}' <= c <= '\u{200a}'
    ||| c == '\u{2028}'
    ||| c == '\u{2029}'
    ||| c == '\u{202f}'
    ||| c == '\u{205f}'
    ||| c == '\u{3000}'
}

/// A set of characters that a scanner can run over.
#[derive(Clone, Copy)]
pub enum CharClass {
    /// White space.
    Space,
    /// Anything but white space.
    NotSpace,
    /// Anything but the one character.
    Except(char),
    /// An ASCII digit.
    Digit,
    /// Anything but an ASCII digit.
    NotDigit,
    /// What may stand before the number in a version range: `^ ~ > = < v` and the blank.
    RangeOperator,
    /// Anything but the `-` and `+` that end the numbers of a version.
    NotSuffixMark,
}

impl CharClass {
    pub open spec fn has(self, c: char) -> bool {
        match self {
            CharClass::Space => is_space(c),
            CharClass::NotSpace => !is_space(c),
            CharClass::Except(x) => c != x,
            CharClass::Digit => '0' <= c <= '9',
            CharClass::NotDigit => !('0' <= c <= '9'),
            CharClass::RangeOperator => {
                c == '^' || c == '~' || c == '>' || c == '=' || c == '<' || c == 'v' || c == ' '
            },
            CharClass::NotSuffixMark => c != '-' && c != '+',
        }
    }

    pub fn contains(self, c: char) -> (r: bool)
        ensures
            r == self.has(c),
    {
        match self {
            CharClass::Space => is_white_space(c),
            CharClass::NotSpace => !is_white_space(c),
            CharClass::Except(x) => c != x,
            CharClass::Digit => '0' <= c && c <= '9',
            CharClass::NotDigit => !('0' <= c && c <= '9'),
            CharClass::RangeOperator => {
                c == '^' || c == '~' || c == '>' || c == '=' || c == '<' || c == 'v' || c == ' '
            },
            CharClass::NotSuffixMark => c != '-' && c != '+',
        }
    }
}

/// The length of the longest prefix of `s` whose characters are all in `class`.
pub open spec fn span(s: Seq<char>, class: CharClass) -> nat
    decreases s.len(),
{
    if s.len() == 0 || !class.has(s[0]) {
        0
    } else {
        1 + span(s.drop_first(), class)
    }
}

/// `s` without its leading white space.
pub open spec fn trim_start(s: Seq<char>) -> Seq<char> {
    s.skip(span(s, CharClass::Space) as int)
}

/// `s` without its trailing white space.
pub open spec fn trim_end(s: Seq<char>) -> Seq<char>
    decreases s.len(),
{
    if s.len() > 0 && is_space(s.last()) {
        trim_end(s.drop_last())
    } else {
        s
    }
}

/// `s` without the white space at both ends.
pub open spec fn trim(s: Seq<char>) -> Seq<char> {
    trim_end(trim_start(s))
}

/// The position of the first `c` in `s`.
pub open spec fn find(s: Seq<char>, c: char) -> Option<nat> {
    let k = span(s, CharClass::Except(c));
    if k < s.len() {
        Some(k)
    } else {
        None
    }
}

/// What stands before and after the first `c` in `s`.
pub open spec fn cut(s: Seq<char>, c: char) -> Option<(Seq<char>, Seq<char>)> {
    match find(s, c) {
        Some(k) => Some((s.take(k as int), s.skip(k as int + 1))),
        None => None,
    }
}

/// The pieces of `s` between the occurrences of `c`.
pub open spec fn split(s: Seq<char>, c: char) -> Seq<Seq<char>>
    decreases s.len(),
{
    match cut(s, c) {
        Some((before, after)) => seq![before] + split(after, c),
        None => seq![s],
    }
}

/// The position at which `needle` first stands in `s`.
pub open spec fn find_text(s: Seq<char>, needle: Seq<char>) -> Option<nat>
    decreases s.len(),
{
    if needle.is_prefix_of(s) {
        Some(0)
    } else if s.len() == 0 {
        None
    } else {
        match find_text(s.drop_first(), needle) {
            Some(k) => Some(k + 1),
            None => None,
        }
    }
}

/// How many of the first characters of `s` fit into `cap` bytes.
pub open spec fn fitting(s: Seq<char>, cap: nat) -> nat
    decreases s.len(),
{
    if s.len() == 0 || byte_width(s[0]) > cap {
        0
    } else {
        1 + fitting(s.drop_first(), (cap - byte_width(s[0])) as nat)
    }
}

/// `s` without all the copies of `prefix` that it begins with.
pub open spec fn strip_prefixes(s: Seq<char>, prefix: Seq<char>) -> Seq<char>
    decreases s.len(),
{
    if prefix.len() > 0 && prefix.is_prefix_of(s) {
        strip_prefixes(s.skip(prefix.len() as int), prefix)
    } else {
        s
    }
}

/// `s` without all the copies of `suffix` that it ends with.
pub open spec fn strip_suffixes(s: Seq<char>, suffix: Seq<char>) -> Seq<char>
    decreases s.len(),
{
    if suffix.len() > 0 && suffix.is_suffix_of(s) {
        strip_suffixes(s.take(s.len() - suffix.len()), suffix)
    } else {
        s
    }
}

/// How often `c` occurs in `s`.
pub open spec fn count(s: Seq<char>, c: char) -> nat
    decreases s.len(),
{
    if s.len() == 0 {
        0
    } else {
        count(s.drop_last(), c) + (if s.last() == c {
            1nat
        } else {
            0nat
        })
    }
}

/// A line that a line feed ended, without the carriage return before the feed.
pub open spec fn chomp(line: Seq<char>) -> Seq<char> {
    if line.len() > 0 && line.last() == '\r' {
        line.drop_last()
    } else {
        line
    }
}

/// The lines of a text: what each `\n` or `\r\n` ends, and what is left after
/// the last one if that is not empty.
pub open spec fn lines(s: Seq<char>) -> Seq<Seq<char>>
    decreases s.len(),
{
    if s.len() == 0 {
        seq![]
    } else {
        match cut(s, '\n') {
            Some((line, rest)) => seq![chomp(line)] + lines(rest),
            None => seq![s],
        }
    }
}

/// The number of characters that the parts hold together.
pub open spec fn total_len(parts: Seq<Seq<char>>) -> nat
    decreases parts.len(),
{
    if parts.len() == 0 {
        0
    } else {
        total_len(parts.drop_last()) + parts.last().len()
    }
}

/// The parts one after the other, with `sep` between two neighbours.
pub open spec fn join(parts: Seq<Seq<char>>, sep: Seq<char>) -> Seq<char>
    decreases parts.len(),
{
    if parts.len() == 0 {
        seq![]
    } else if parts.len() == 1 {
        parts[0]
    } else {
        join(parts.drop_last(), sep) + sep + parts.last()
    }
}

/// The character of a decimal digit.
pub open spec fn digit(d: nat) -> char {
    ('0' as nat + d) as char
}

/// A number in decimal notation.
pub open spec fn decimal(n: nat) -> Seq<char>
    decreases n,
{
    if n < 10 {
        seq![digit(n)]
    } else {
        decimal(n / 10).push(digit(n % 10))
    }
}

/// The texts that the strings hold.
pub open spec fn views(v: Seq<String>) -> Seq<Seq<char>> {
    Seq::new(v.len(), |i: int| v[i]@)
}

pub proof fn lemma_span(s: Seq<char>, class: CharClass)
    ensures
        span(s, class) <= s.len(),
        forall|i: int| 0 <= i < span(s, class) ==> class.has(#[trigger] s[i]),
        span(s, class) < s.len() ==> !class.has(s[span(s, class) as int]),
    decreases s.len(),
{
    if s.len() > 0 && class.has(s[0]) {
        lemma_span(s.drop_first(), class);
        assert forall|i: int| 0 <= i < span(s, class) implies class.has(#[trigger] s[i]) by {
            if i > 0 {
                assert(s[i] == s.drop_first()[i - 1]);
            }
        }
    }
}

pub proof fn lemma_span_unique(s: Seq<char>, class: CharClass, k: nat)
    requires
        k <= s.len(),
        forall|i: int| 0 <= i < k ==> class.has(#[trigger] s[i]),
        k < s.len() ==> !class.has(s[k as int]),
    ensures
        span(s, class) == k,
{
    lemma_span(s, class);
    let n = span(s, class);
    if n < k {
        assert(class.has(s[n as int]));
    }
    if k < n {
        assert(class.has(s[k as int]));
    }
}

pub proof fn lemma_trim_end(s: Seq<char>)
    ensures
        trim_end(s).len() <= s.len(),
        trim_end(s) == s.take(trim_end(s).len() as int),
        trim_end(s).len() > 0 ==> !is_space(trim_end(s).last()),
        forall|i: int| trim_end(s).len() <= i < s.len() ==> is_space(#[trigger] s[i]),
    decreases s.len(),
{
    if s.len() > 0 && is_space(s.last()) {
        lemma_trim_end(s.drop_last());
        let n = trim_end(s).len();
        assert forall|i: int| n <= i < s.len() implies is_space(#[trigger] s[i]) by {
            if i < s.len() - 1 {
                assert(s[i] == s.drop_last()[i]);
            }
        }
        assert(s.take(n as int) =~= s.drop_last().take(n as int));
    } else {
        assert(s.take(s.len() as int) =~= s);
    }
}

pub proof fn lemma_trim_end_unique(s: Seq<char>, n: nat)
    requires
        n <= s.len(),
        n > 0 ==> !is_space(s[n - 1]),
        forall|i: int| n <= i < s.len() ==> is_space(#[trigger] s[i]),
    ensures
        trim_end(s) == s.take(n as int),
{
    lemma_trim_end(s);
    let m = trim_end(s).len();
    if m < n {
        assert(is_space(s[n - 1]));
    }
    if n < m {
        assert(is_space(s[m - 1]));
        assert(trim_end(s).last() == s[m - 1]);
    }
}

pub proof fn lemma_byte_len_concat(a: Seq<char>, b: Seq<char>)
    ensures
        byte_len(a + b) == byte_len(a) + byte_len(b),
    decreases a.len(),
{
    if a.len() == 0 {
        assert(a + b =~= b);
    } else {
        lemma_byte_len_concat(a.drop_first(), b);
        assert((a + b).drop_first() =~= a.drop_first() + b);
    }
}

pub proof fn lemma_byte_len_char(c: char)
    ensures
        byte_len(seq![c]) == byte_width(c),
{
    let s = seq![c];
    assert(s.drop_first() =~= Seq::<char>::empty());
    assert(encode_utf8(Seq::<char>::empty()).len() == 0);
    assert(encode_utf8(s) == encode_scalar(c as u32) + encode_utf8(s.drop_first()));
}

/// A prefix takes no more bytes than the whole, and at least one per character.
pub proof fn lemma_byte_len_split(s: Seq<char>, k: int)
    requires
        0 <= k <= s.len(),
    ensures
        byte_len(s) == byte_len(s.take(k)) + byte_len(s.skip(k)),
{
    lemma_byte_len_concat(s.take(k), s.skip(k));
    assert(s.take(k) + s.skip(k) =~= s);
}

proof fn lemma_total_len_first(first: Seq<char>, rest: Seq<Seq<char>>)
    ensures
        total_len(seq![first] + rest) == first.len() + total_len(rest),
    decreases rest.len(),
{
    reveal_with_fuel(total_len, 2);
    let all = seq![first] + rest;
    if rest.len() == 0 {
        assert(all.drop_last() =~= seq![]);
    } else {
        assert(all.drop_last() =~= seq![first] + rest.drop_last());
        lemma_total_len_first(first, rest.drop_last());
    }
}

proof fn lemma_total_len_lines(s: Seq<char>)
    ensures
        total_len(lines(s)) <= s.len(),
    decreases s.len(),
{
    if s.len() > 0 {
        lemma_span(s, CharClass::Except('\n'));
        match cut(s, '\n') {
            Some((line, rest)) => {
                lemma_total_len_lines(rest);
                lemma_total_len_first(chomp(line), lines(rest));
            },
            None => {
                lemma_total_len_first(s, seq![]);
                assert(seq![s] + Seq::<Seq<char>>::empty() =~= seq![s]);
            },
        }
    }
}

/// The first parts hold no more characters than all parts together.
pub proof fn lemma_total_len_take(parts: Seq<Seq<char>>, k: int)
    requires
        0 <= k <= parts.len(),
    ensures
        total_len(parts.take(k)) <= total_len(parts),
    decreases parts.len(),
{
    if k < parts.len() {
        assert(parts.drop_last().take(k) =~= parts.take(k));
        lemma_total_len_take(parts.drop_last(), k);
    } else {
        assert(parts.take(k) =~= parts);
    }
}

/// Whether `c` does not occur in `s`.
pub open spec fn lacks(s: Seq<char>, c: char) -> bool {
    forall|i: int| 0 <= i < s.len() ==> #[trigger] s[i] != c
}

/// A text that is cut at a character is what stands before it, that character,
/// and what stands after it.
pub proof fn lemma_cut_parts(s: Seq<char>, c: char)
    requires
        cut(s, c) is Some,
    ensures
        ({
            let (a, b) = cut(s, c)->0;
            &&& s == a + seq![c] + b
            &&& lacks(a, c)
            &&& s.len() == a.len() + 1 + b.len()
        }),
{
    let class = CharClass::Except(c);
    lemma_span(s, class);
    let (a, b) = cut(s, c)->0;
    assert(s =~= a + seq![c] + b);
    assert forall|i: int| 0 <= i < a.len() implies #[trigger] a[i] != c by {
        assert(class.has(s[i]));
    }
}

/// A text is cut at the first of the characters.
pub proof fn lemma_cut_made(a: Seq<char>, c: char, b: Seq<char>)
    requires
        lacks(a, c),
    ensures
        cut(a + seq![c] + b, c) == Some((a, b)),
{
    let s = a + seq![c] + b;
    let class = CharClass::Except(c);
    assert forall|i: int| 0 <= i < a.len() implies class.has(#[trigger] s[i]) by {
        assert(s[i] == a[i]);
    }
    lemma_span_unique(s, class, a.len());
    assert(s.take(a.len() as int) =~= a);
    assert(s.skip(a.len() as int + 1) =~= b);
}

/// A run that ends inside a text ends there whatever follows the text.
pub proof fn lemma_span_concat(a: Seq<char>, b: Seq<char>, class: CharClass)
    requires
        span(a, class) < a.len(),
    ensures
        span(a + b, class) == span(a, class),
{
    lemma_span(a, class);
    let k = span(a, class);
    assert forall|i: int| 0 <= i < k implies class.has(#[trigger] (a + b)[i]) by {
        assert((a + b)[i] == a[i]);
    }
    assert((a + b)[k as int] == a[k as int]);
    lemma_span_unique(a + b, class, k);
}

/// As many characters fit into the bytes of a beginning as the beginning has.
pub proof fn lemma_fitting_prefix(s: Seq<char>, k: int)
    requires
        0 <= k <= s.len(),
    ensures
        fitting(s, byte_len(s.take(k))) == k,
    decreases s.len(),
{
    let head = s.take(k);
    if k == 0 {
        assert(head =~= seq![]);
        assert(byte_len(head) == 0);
    } else {
        let rest = s.drop_first();
        assert(head =~= seq![s[0]] + rest.take(k - 1));
        lemma_byte_len_concat(seq![s[0]], rest.take(k - 1));
        lemma_byte_len_char(s[0]);
        lemma_fitting_prefix(rest, k - 1);
    }
}

/// What fits takes no more than the bytes there are, and one more would not fit.
pub proof fn lemma_fitting(s: Seq<char>, cap: nat)
    ensures
        fitting(s, cap) <= s.len(),
        byte_len(s.take(fitting(s, cap) as int)) <= cap,
        fitting(s, cap) < s.len() ==> byte_len(s.take(fitting(s, cap) as int + 1)) > cap,
    decreases s.len(),
{
    if s.len() > 0 {
        lemma_byte_len_char(s[0]);
        if byte_width(s[0]) > cap {
            assert(s.take(0) =~= seq![]);
            assert(byte_len(s.take(0)) == 0);
            assert(s.take(1) =~= seq![s[0]]);
        } else {
            let rest = s.drop_first();
            let left = (cap - byte_width(s[0])) as nat;
            lemma_fitting(rest, left);
            let k = fitting(rest, left) as int;
            assert(s.take(k + 1) =~= seq![s[0]] + rest.take(k));
            lemma_byte_len_concat(seq![s[0]], rest.take(k));
            if k < rest.len() {
                assert(s.take(k + 2) =~= seq![s[0]] + rest.take(k + 1));
                lemma_byte_len_concat(seq![s[0]], rest.take(k + 1));
            }
        }
    } else {
        assert(s.take(0) =~= seq![]);
        assert(byte_len(s.take(0)) == 0);
    }
}

/// Where a text is found it stands, and it does not stand before.
pub proof fn lemma_find_text(s: Seq<char>, needle: Seq<char>)
    ensures
        match find_text(s, needle) {
            Some(k) => {
                &&& k + needle.len() <= s.len()
                &&& needle.is_prefix_of(s.skip(k as int))
                &&& forall|j: int| 0 <= j < k ==> !needle.is_prefix_of(#[trigger] s.skip(j))
            },
            None => forall|j: int|
                0 <= j <= s.len() ==> !needle.is_prefix_of(#[trigger] s.skip(j)),
        },
    decreases s.len(),
{
    assert(s.skip(0) =~= s);
    if !needle.is_prefix_of(s) && s.len() > 0 {
        let rest = s.drop_first();
        lemma_find_text(rest, needle);
        assert forall|j: int| 0 < j <= s.len() implies #[trigger] s.skip(j) == rest.skip(j - 1) by {
            assert(s.skip(j) =~= rest.skip(j - 1));
        }
    }
}

/// A text is found at the first place where it stands.
pub proof fn lemma_find_text_unique(s: Seq<char>, needle: Seq<char>, at: Option<nat>)
    requires
        match at {
            Some(k) => {
                &&& k <= s.len()
                &&& needle.is_prefix_of(s.skip(k as int))
                &&& forall|j: int| 0 <= j < k ==> !needle.is_prefix_of(#[trigger] s.skip(j))
            },
            None => forall|j: int|
                0 <= j <= s.len() ==> !needle.is_prefix_of(#[trigger] s.skip(j)),
        },
    ensures
        find_text(s, needle) == at,
{
    lemma_find_text(s, needle);
    match (find_text(s, needle), at) {
        (Some(a), Some(b)) => {
            if a < b {
                assert(!needle.is_prefix_of(s.skip(a as int)));
            }
            if b < a {
                assert(!needle.is_prefix_of(s.skip(b as int)));
            }
        },
        (Some(a), None) => {
            assert(!needle.is_prefix_of(s.skip(a as int)));
        },
        (None, Some(b)) => {
            assert(!needle.is_prefix_of(s.skip(b as int)));
        },
        (None, None) => {},
    }
}

/// Whether the character has the Unicode property White_Space.
pub fn is_white_space(c: char) -> (r: bool)
    ensures
        r == is_space(c),
{
    ('\u{9}' <= c && c <= '\u{d}') || c == ' ' || c == '\u{85}' || c == '\u{a0}' || c == '\u{1680}'
        || ('\u{2000}' <= c && c <= '\u{200a}') || c == '\u{2028}' || c == '\u{2029}' || c
        == '\u{202f}' || c == '\u{205f}' || c == '\u{3000}'
}

/// The characters of a text.
pub fn chars_of(text: &str) -> (r: Vec<char>)
    ensures
        r@ == text@,
        byte_len(text@) <= usize::MAX,
{
    let bytes: usize = text.as_bytes().len();
    let mut out: Vec<char> = Vec::new();
    for c in it: text.chars()
        invariant
            it.seq() == text@,
            out@ == it.seq().take(it.index() as int),
    {
        out.push(c);
    }
    out
}

/// The text that the characters make.
pub fn text_of(chars: &[char]) -> (r: String)
    ensures
        r@ == chars@,
{
    let mut out = String::new();
    let mut i: usize = 0;
    while i < chars.len()
        invariant
            i <= chars@.len(),
            out@ == chars@.take(i as int),
        decreases chars@.len() - i,
    {
        out.push(chars[i]);
        i += 1;
        assert(chars@.take(i as int) =~= chars@.take(i - 1).push(chars@[i - 1]));
    }
    assert(chars@.take(i as int) =~= chars@);
    out
}

/// Whether two texts are the same.
pub fn same_text(a: &str, b: &str) -> (r: bool)
    ensures
        r == (a@ == b@),
{
    let x = a.as_bytes();
    let y = b.as_bytes();
    if x.len() != y.len() {
        return false;
    }
    let mut i: usize = 0;
    while i < x.len()
        invariant
            x@.len() == y@.len(),
            i <= x@.len(),
            x@ == encode_utf8(a@),
            y@ == encode_utf8(b@),
            forall|k: int| 0 <= k < i ==> x@[k] == y@[k],
        decreases x@.len() - i,
    {
        if x[i] != y[i] {
            return false;
        }
        i += 1;
    }
    proof {
        assert(x@ =~= y@);
        encode_utf8_decode_utf8(a@);
        encode_utf8_decode_utf8(b@);
    }
    true
}

/// The length of the longest prefix of `s` whose characters are all in `class`.
pub fn span_len(s: &[char], class: CharClass) -> (r: usize)
    ensures
        r == span(s@, class),
        r <= s@.len(),
{
    let mut i: usize = 0;
    while i < s.len() && class.contains(s[i])
        invariant
            i <= s@.len(),
            forall|k: int| 0 <= k < i ==> class.has(#[trigger] s@[k]),
        decreases s@.len() - i,
    {
        i += 1;
    }
    proof {
        lemma_span_unique(s@, class, i as nat);
    }
    i
}

/// `s` without its first `k` characters.
pub fn skip(s: &[char], k: usize) -> (r: &[char])
    requires
        k <= s@.len(),
    ensures
        r@ == s@.skip(k as int),
{
    slice_subrange(s, k, s.len())
}

/// The first `k` characters of `s`.
pub fn take(s: &[char], k: usize) -> (r: &[char])
    requires
        k <= s@.len(),
    ensures
        r@ == s@.take(k as int),
{
    slice_subrange(s, 0, k)
}

/// The position of the first `c` in `s`.
pub fn position(s: &[char], c: char) -> (r: Option<usize>)
    ensures
        match r {
            Some(k) => find(s@, c) == Some(k as nat) && k < s@.len() && k < usize::MAX,
            None => find(s@, c) is None,
        },
{
    let k: usize = span_len(s, CharClass::Except(c));
    if k < s.len() {
        Some(k)
    } else {
        None
    }
}

/// `s` without its leading white space.
pub fn trimmed_start(s: &[char]) -> (r: &[char])
    ensures
        r@ == trim_start(s@),
        r@.len() <= s@.len(),
{
    let k: usize = span_len(s, CharClass::Space);
    skip(s, k)
}

/// `s` without its trailing white space.
pub fn trimmed_end(s: &[char]) -> (r: &[char])
    ensures
        r@ == trim_end(s@),
        r@.len() <= s@.len(),
{
    let mut n: usize = s.len();
    proof {
        assert(s@.take(n as int) =~= s@);
    }
    while n > 0 && is_white_space(s[n - 1])
        invariant
            n <= s@.len(),
            trim_end(s@) == trim_end(s@.take(n as int)),
        decreases n,
    {
        assert(s@.take(n as int).drop_last() =~= s@.take(n - 1));
        n -= 1;
    }
    take(s, n)
}

/// `s` without the white space at both ends.
pub fn trimmed(s: &[char]) -> (r: &[char])
    ensures
        r@ == trim(s@),
{
    trimmed_end(trimmed_start(s))
}

/// The number of bytes that one character takes in UTF-8.
pub fn width_of(c: char) -> (r: usize)
    ensures
        r == byte_width(c),
{
    let code: u32 = c as u32;
    if code <= 0x7F {
        1
    } else if code <= 0x7FF {
        2
    } else if code <= 0xFFFF {
        3
    } else {
        4
    }
}

/// The number of bytes that the characters take in UTF-8.
pub fn bytes_in(s: &[char]) -> (r: usize)
    requires
        byte_len(s@) <= usize::MAX,
    ensures
        r == byte_len(s@),
{
    let mut total: usize = 0;
    let mut i: usize = 0;
    while i < s.len()
        invariant
            i <= s@.len(),
            total == byte_len(s@.take(i as int)),
            byte_len(s@) <= usize::MAX,
        decreases s@.len() - i,
    {
        let c: char = s[i];
        let width: usize = width_of(c);
        proof {
            lemma_byte_len_char(c);
            lemma_byte_len_concat(s@.take(i as int), seq![c]);
            assert(s@.take(i + 1) =~= s@.take(i as int) + seq![c]);
            lemma_byte_len_split(s@, i + 1);
        }
        total += width;
        i += 1;
    }
    proof {
        assert(s@.take(i as int) =~= s@);
    }
    total
}

/// Whether `s` begins with `prefix`.
pub fn has_prefix(s: &[char], prefix: &[char]) -> (r: bool)
    ensures
        r == prefix@.is_prefix_of(s@),
{
    if prefix.len() > s.len() {
        return false;
    }
    let mut i: usize = 0;
    while i < prefix.len()
        invariant
            i <= prefix@.len() <= s@.len(),
            forall|k: int| 0 <= k < i ==> prefix@[k] == s@[k],
        decreases prefix@.len() - i,
    {
        if prefix[i] != s[i] {
            assert(prefix@[i as int] != s@.subrange(0, prefix@.len() as int)[i as int]);
            return false;
        }
        i += 1;
    }
    assert(prefix@ =~= s@.subrange(0, prefix@.len() as int));
    true
}

/// Whether `s` ends with `suffix`.
pub fn has_suffix(s: &[char], suffix: &[char]) -> (r: bool)
    ensures
        r == suffix@.is_suffix_of(s@),
{
    if suffix.len() > s.len() {
        return false;
    }
    let tail = skip(s, s.len() - suffix.len());
    let same = has_prefix(tail, suffix);
    proof {
        assert(tail@ =~= s@.subrange(s@.len() - suffix@.len(), s@.len() as int));
        assert(tail@.subrange(0, suffix@.len() as int) =~= tail@);
    }
    same
}

/// `s` without all the copies of `prefix` that it begins with.
pub fn without_prefixes<'a>(s: &'a [char], prefix: &[char]) -> (r: &'a [char])
    ensures
        r@ == strip_prefixes(s@, prefix@),
{
    let mut rest = s;
    while prefix.len() > 0 && has_prefix(rest, prefix)
        invariant
            strip_prefixes(s@, prefix@) == strip_prefixes(rest@, prefix@),
        decreases rest@.len(),
    {
        rest = skip(rest, prefix.len());
    }
    rest
}

/// `s` without all the copies of `suffix` that it ends with.
pub fn without_suffixes<'a>(s: &'a [char], suffix: &[char]) -> (r: &'a [char])
    ensures
        r@ == strip_suffixes(s@, suffix@),
{
    let mut rest = s;
    while suffix.len() > 0 && has_suffix(rest, suffix)
        invariant
            strip_suffixes(s@, suffix@) == strip_suffixes(rest@, suffix@),
        decreases rest@.len(),
    {
        rest = take(rest, rest.len() - suffix.len());
    }
    rest
}

/// The first characters of `s` that fit into `cap` bytes.
pub fn fit(s: &[char], cap: usize) -> (r: &[char])
    ensures
        r@ == s@.take(fitting(s@, cap as nat) as int),
{
    let mut i: usize = 0;
    let mut left: usize = cap;
    proof {
        assert(s@.skip(0) =~= s@);
    }
    while i < s.len() && width_of(s[i]) <= left
        invariant
            i <= s@.len(),
            fitting(s@, cap as nat) == i + fitting(s@.skip(i as int), left as nat),
        decreases s@.len() - i,
    {
        proof {
            assert(s@.skip(i as int)[0] == s@[i as int]);
            assert(s@.skip(i as int).drop_first() =~= s@.skip(i + 1));
        }
        left -= width_of(s[i]);
        i += 1;
    }
    take(s, i)
}

/// The position at which `needle` first stands in `s`.
pub fn text_position(s: &[char], needle: &[char]) -> (r: Option<usize>)
    ensures
        match r {
            Some(k) => find_text(s@, needle@) == Some(k as nat) && k + needle@.len() <= s@.len(),
            None => find_text(s@, needle@) is None,
        },
{
    let mut i: usize = 0;
    proof {
        assert(s@.skip(0) =~= s@);
    }
    loop
        invariant
            i <= s@.len(),
            find_text(s@, needle@) == match find_text(s@.skip(i as int), needle@) {
                Some(k) => Some(k + i as nat),
                None => None,
            },
        decreases s@.len() - i,
    {
        if has_prefix(skip(s, i), needle) {
            return Some(i);
        }
        if i == s.len() {
            return None;
        }
        proof {
            assert(s@.skip(i as int).drop_first() =~= s@.skip(i + 1));
        }
        i += 1;
    }
}

/// The pieces of `s` between the occurrences of `c`.
pub fn pieces(s: &[char], c: char) -> (r: Vec<String>)
    ensures
        views(r@) == split(s@, c),
        r@.len() >= 1,
{
    let mut out: Vec<String> = Vec::new();
    let mut start: usize = 0;
    proof {
        assert(s@.skip(0) =~= s@);
        assert(views(out@) =~= seq![]);
        assert(views(out@) + split(s@, c) =~= split(s@, c));
    }
    let total: usize = s.len();
    loop
        invariant
            start <= total == s@.len(),
            views(out@) + split(s@.skip(start as int), c) == split(s@, c),
        decreases s@.len() - start,
    {
        let rest = skip(s, start);
        let ghost before = views(out@);
        match position(rest, c) {
            Some(k) => {
                out.push(text_of(take(rest, k)));
                proof {
                    assert(rest@.skip(k + 1) =~= s@.skip(start + k + 1));
                    assert(views(out@) =~= before.push(rest@.take(k as int)));
                    assert(before + (seq![rest@.take(k as int)] + split(
                        s@.skip(start + k + 1),
                        c,
                    )) =~= views(out@) + split(s@.skip(start + k + 1), c));
                }
                start += k + 1;
            },
            None => {
                out.push(text_of(rest));
                proof {
                    assert(views(out@) =~= before + seq![rest@]);
                }
                return out;
            },
        }
    }
}

/// The lines of a text.
pub fn lines_of(text: &str) -> (r: Vec<String>)
    ensures
        views(r@) == lines(text@),
        total_len(lines(text@)) <= usize::MAX,
{
    let chars = chars_of(text);
    let s = chars.as_slice();
    let len: usize = s.len();
    proof {
        lemma_total_len_lines(s@);
    }
    let mut out: Vec<String> = Vec::new();
    let mut start: usize = 0;
    proof {
        assert(s@.skip(0) =~= s@);
        assert(views(out@) + lines(s@) =~= lines(s@));
    }
    while start < s.len()
        invariant
            start <= s@.len(),
            s@ == text@,
            total_len(lines(s@)) <= usize::MAX,
            views(out@) + lines(s@.skip(start as int)) == lines(s@),
        decreases s@.len() - start,
    {
        let rest = skip(s, start);
        let ghost before = views(out@);
        match position(rest, '\n') {
            Some(k) => {
                let line = take(rest, k);
                let line = if k > 0 && line[k - 1] == '\r' {
                    take(line, k - 1)
                } else {
                    line
                };
                proof {
                    assert(line@ =~= chomp(rest@.take(k as int)));
                }
                out.push(text_of(line));
                proof {
                    assert(rest@.skip(k + 1) =~= s@.skip(start + k + 1));
                    assert(views(out@) =~= before.push(line@));
                    assert(before + (seq![line@] + lines(s@.skip(start + k + 1))) =~= views(out@)
                        + lines(s@.skip(start + k + 1)));
                }
                start += k + 1;
            },
            None => {
                out.push(text_of(rest));
                proof {
                    assert(views(out@) =~= before + seq![rest@]);
                }
                return out;
            },
        }
    }
    proof {
        assert(s@.skip(start as int) =~= seq![]);
        assert(views(out@) + lines(s@.skip(start as int)) =~= views(out@));
    }
    out
}

/// The parts one after the other, with `sep` between two neighbours.
pub fn joined(parts: &Vec<String>, sep: &str) -> (r: String)
    ensures
        r@ == join(views(parts@), sep@),
{
    let mut out = String::new();
    let ghost all = views(parts@);
    let mut i: usize = 0;
    proof {
        assert(all.take(0) =~= seq![]);
    }
    while i < parts.len()
        invariant
            i <= parts@.len(),
            all == views(parts@),
            out@ == join(all.take(i as int), sep@),
        decreases parts@.len() - i,
    {
        if i > 0 {
            out.append(sep);
        }
        out.append(parts[i].as_str());
        proof {
            let next = all.take(i + 1);
            assert(next.drop_last() =~= all.take(i as int));
            assert(next.last() == parts@[i as int]@);
            if i == 0 {
                assert(out@ =~= next[0]);
            }
        }
        i += 1;
    }
    proof {
        assert(all.take(i as int) =~= all);
    }
    out
}

/// Appends a number in decimal notation.
pub fn push_decimal(out: &mut String, n: u64)
    ensures
        final(out)@ == old(out)@ + decimal(n as nat),
    decreases n,
{
    if n >= 10 {
        push_decimal(out, n / 10);
    }
    let d: u8 = (n % 10) as u8;
    let c: char = (48u8 + d) as char;
    out.push(c);
    proof {
        assert(c == digit((n % 10) as nat));
        if n >= 10 {
            assert(old(out)@ + decimal((n / 10) as nat).push(c) =~= (old(out)@ + decimal(
                (n / 10) as nat,
            )).push(c));
        } else {
            assert(old(out)@ + seq![c] =~= old(out)@.push(c));
        }
    }
}

} // verus!

//! Released versions: their text, their order, and the version that a range in a
//! manifest starts from.
use crate::text::{
    chars_of, cut, decimal, digit, lemma_span, lemma_span_unique, pieces, push_decimal, same_text,
    skip, span, span_len, split, take, text_of, trim, trim_start, trimmed, trimmed_start, views,
    CharClass,
};
use vstd::prelude::*;
use vstd::string::*;

verus! {

/// A semantic version. `pre` and `build` are empty where there is none.
#[derive(Debug, PartialEq, Eq)]
pub struct Version {
    pub major: u64,
    pub minor: u64,
    pub patch: u64,
    pub pre: String,
    pub build: String,
}

/// What a [`Version`] says.
#[verifier::ext_equal]
pub struct VersionView {
    pub major: u64,
    pub minor: u64,
    pub patch: u64,
    pub pre: Seq<char>,
    pub build: Seq<char>,
}

impl View for Version {
    type V = VersionView;

    open spec fn view(&self) -> VersionView {
        VersionView {
            major: self.major,
            minor: self.minor,
            patch: self.patch,
            pre: self.pre@,
            build: self.build@,
        }
    }
}

/// What each of the versions says.
pub open spec fn version_views(versions: Seq<Version>) -> Seq<VersionView> {
    Seq::new(versions.len(), |i: int| versions[i]@)
}

/// What an optional version says.
pub open spec fn opt_version(version: Option<Version>) -> Option<VersionView> {
    match version {
        Some(version) => Some(version@),
        None => None,
    }
}

/// The version with the given numbers alone.
pub open spec fn release(major: u64, minor: u64, patch: u64) -> VersionView {
    VersionView { major, minor, patch, pre: seq![], build: seq![] }
}

/// Three numbers with dots between them.
pub open spec fn release_text(major: nat, minor: nat, patch: nat) -> Seq<char> {
    decimal(major) + seq!['.'] + (decimal(minor) + seq!['.'] + decimal(patch))
}

/// A version as it is written.
pub open spec fn version_text(v: VersionView) -> Seq<char> {
    release_text(v.major as nat, v.minor as nat, v.patch as nat) + (if v.pre.len() > 0 {
        seq!['-'] + v.pre
    } else {
        seq![]
    }) + (if v.build.len() > 0 {
        seq!['+'] + v.build
    } else {
        seq![]
    })
}

/// The characters that a pre-release and build metadata are made of.
pub open spec fn is_identifier_char(c: char) -> bool {
    ||| '0' <= c <= '9'
    ||| 'a' <= c <= 'z'
    ||| 'A' <= c <= 'Z'
    ||| c == '-'
    ||| c == '.'
}

/// Whether the pre-release and the build metadata are made of the characters that
/// such may hold.
pub open spec fn well_formed(v: VersionView) -> bool {
    &&& forall|i: int| 0 <= i < v.pre.len() ==> is_identifier_char(#[trigger] v.pre[i])
    &&& forall|i: int| 0 <= i < v.build.len() ==> is_identifier_char(#[trigger] v.build[i])
}

/// Whether, of two versions with the same three numbers, the first comes no
/// later than the second, as `semver` orders pre-releases and build metadata. A
/// text that `semver` does not take for one counts as none.
pub uninterp spec fn same_numbers_le(
    pre_a: Seq<char>,
    build_a: Seq<char>,
    pre_b: Seq<char>,
    build_b: Seq<char>,
) -> bool;

/// Whether `a` comes no later than `b`: by the numbers from left to right first.
pub open spec fn version_le(a: VersionView, b: VersionView) -> bool {
    if a.major != b.major {
        a.major < b.major
    } else if a.minor != b.minor {
        a.minor < b.minor
    } else if a.patch != b.patch {
        a.patch < b.patch
    } else {
        same_numbers_le(a.pre, a.build, b.pre, b.build)
    }
}

/// The comparison `<=` of two `semver::Version`s. The numbers decide from left to
/// right; among versions with the same numbers the order is that of `semver`. It
/// is a total order, so a version comes no later than itself, one of two comes
/// no later than the other, and what comes before `a` comes before all after `a`.
#[verifier::external_body]
fn semver_le(a: &Version, b: &Version) -> (r: bool)
    ensures
        r == version_le(a@, b@),
        a.major == b.major && a.minor == b.minor && a.patch == b.patch ==> r == same_numbers_le(
            a.pre@,
            a.build@,
            b.pre@,
            b.build@,
        ),
        a@ == b@ ==> r,
        !r ==> version_le(b@, a@),
        r ==> forall|c: VersionView| #[trigger] version_le(c, a@) ==> version_le(c, b@),
        r ==> forall|c: VersionView| #[trigger] version_le(b@, c) ==> version_le(a@, c),
{
    let pre = |text: &String| semver::Prerelease::new(text).unwrap_or(semver::Prerelease::EMPTY);
    let build = |text: &String|
        semver::BuildMetadata::new(text).unwrap_or(semver::BuildMetadata::EMPTY);
    let of = |v: &Version| semver::Version {
        major: v.major,
        minor: v.minor,
        patch: v.patch,
        pre: pre(&v.pre),
        build: build(&v.build),
    };
    of(a) <= of(b)
}

/// What `semver::Version::parse` reads from a text.
pub uninterp spec fn semver_version(text: Seq<char>) -> Option<VersionView>;

/// `semver::Version::parse`: the version that the text is, or nothing for a text
/// that is none. The text is exactly how the version is written, its pre-release
/// and build metadata hold ASCII letters, digits, hyphens and dots alone, and the
/// text of any three numbers is a version.
#[verifier::external_body]
pub(crate) fn parse_version(text: &str) -> (r: Option<Version>)
    ensures
        opt_version(r) == semver_version(text@),
        r matches Some(v) ==> text@ == version_text(v@),
        r matches Some(v) ==> well_formed(v@),
        forall|a: u64, b: u64, c: u64|
            text@ == #[trigger] release_text(a as nat, b as nat, c as nat) ==> opt_version(r)
                == Some(release(a, b, c)),
{
    let v = semver::Version::parse(text).ok()?;
    Some(
        Version {
            major: v.major,
            minor: v.minor,
            patch: v.patch,
            pre: v.pre.as_str().to_string(),
            build: v.build.as_str().to_string(),
        },
    )
}

impl Version {
    /// The version with the given numbers alone.
    pub fn new(major: u64, minor: u64, patch: u64) -> (r: Version)
        ensures
            r@ == release(major, minor, patch),
    {
        Version { major, minor, patch, pre: String::new(), build: String::new() }
    }

    /// The version as it is written.
    pub fn to_text(&self) -> (r: String)
        ensures
            r@ == version_text(self@),
    {
        let mut out = String::new();
        push_decimal(&mut out, self.major);
        out.push('.');
        push_decimal(&mut out, self.minor);
        out.push('.');
        push_decimal(&mut out, self.patch);
        proof {
            let (a, b, c) = (
                decimal(self.major as nat),
                decimal(self.minor as nat),
                decimal(self.patch as nat),
            );
            assert(out@ =~= a + seq!['.'] + (b + seq!['.'] + c));
        }
        let ghost numbers = out@;
        if !self.pre.as_str().is_empty() {
            out.push('-');
            out.append(self.pre.as_str());
            assert(out@ =~= numbers + (seq!['-'] + self.pre@));
        } else {
            assert(numbers + Seq::<char>::empty() =~= numbers);
        }
        let ghost head = out@;
        if !self.build.as_str().is_empty() {
            out.push('+');
            out.append(self.build.as_str());
            assert(out@ =~= head + (seq!['+'] + self.build@));
        } else {
            assert(head + Seq::<char>::empty() =~= head);
        }
        out
    }

    /// Whether this version comes no later than the other one.
    pub fn no_later_than(&self, other: &Version) -> (r: bool)
        ensures
            r == version_le(self@, other@),
            self@ == other@ ==> r,
            !r ==> version_le(other@, self@),
            r ==> forall|c: VersionView|
                #[trigger] version_le(c, self@) ==> version_le(c, other@),
            r ==> forall|c: VersionView|
                #[trigger] version_le(other@, c) ==> version_le(self@, c),
    {
        semver_le(self, other)
    }
}

impl Clone for Version {
    fn clone(&self) -> (r: Version)
        ensures
            r@ == self@,
    {
        Version {
            major: self.major,
            minor: self.minor,
            patch: self.patch,
            pre: self.pre.clone(),
            build: self.build.clone(),
        }
    }
}

/// The first run of characters that are not white space.
pub open spec fn first_word(s: Seq<char>) -> Seq<char> {
    let t = trim_start(s);
    t.take(span(t, CharClass::NotSpace) as int)
}

/// The dotted numbers that a range starts from: what follows its operators, up to
/// a blank, a pre-release or build metadata. `None` for what names no number of a
/// registry: nothing, `*`, `latest` and everything with a colon in it.
pub open spec fn range_start(range: Seq<char>) -> Option<Seq<char>> {
    let s = trim(range);
    if s.len() == 0 || s == "*"@ || s == "latest"@ || s.contains(':') {
        None
    } else {
        let word = first_word(s.skip(span(s, CharClass::RangeOperator) as int));
        Some(word.take(span(word, CharClass::NotSuffixMark) as int))
    }
}

/// The number in the given place of a list: 0 for a wildcard and for what is missing.
pub open spec fn number_at(parts: Seq<Seq<char>>, i: int) -> Seq<char> {
    if i >= parts.len() || parts[i] == "x"@ || parts[i] == "X"@ || parts[i] == "*"@ {
        seq!['0']
    } else {
        parts[i]
    }
}

/// Dotted numbers as a full version: wildcards and missing numbers are 0, and
/// what follows the third number is dropped.
pub open spec fn full_numbers(core: Seq<char>) -> Seq<char> {
    let parts = split(core, '.');
    number_at(parts, 0) + seq!['.'] + (number_at(parts, 1) + seq!['.'] + number_at(parts, 2))
}

/// The three numbers that are written `text`.
pub open spec fn release_written(text: Seq<char>) -> Option<VersionView> {
    if exists|a: u64, b: u64, c: u64|
        text == #[trigger] release_text(a as nat, b as nat, c as nat) {
        let (a, b, c) = choose|a: u64, b: u64, c: u64|
            text == #[trigger] release_text(a as nat, b as nat, c as nat);
        Some(release(a, b, c))
    } else {
        None
    }
}

/// The version that a range starts from.
pub open spec fn range_version(range: Seq<char>) -> Option<VersionView> {
    match range_start(range) {
        Some(core) => release_written(full_numbers(core)),
        None => None,
    }
}

pub proof fn lemma_decimal_digits(n: nat)
    ensures
        decimal(n).len() >= 1,
        n >= 10 ==> decimal(n).len() >= 2,
        forall|i: int| 0 <= i < decimal(n).len() ==> '0' <= #[trigger] decimal(n)[i] <= '9',
    decreases n,
{
    if n >= 10 {
        lemma_decimal_digits(n / 10);
    }
}

pub proof fn lemma_decimal_injective(m: nat, n: nat)
    requires
        decimal(m) == decimal(n),
    ensures
        m == n,
    decreases m,
{
    lemma_decimal_digits(m);
    lemma_decimal_digits(n);
    assert(decimal(m).last() == decimal(n).last());
    if m >= 10 && n >= 10 {
        assert(decimal(m).drop_last() =~= decimal(m / 10));
        assert(decimal(n).drop_last() =~= decimal(n / 10));
        lemma_decimal_injective(m / 10, n / 10);
        assert(decimal(m).last() == digit(m % 10));
        assert(decimal(n).last() == digit(n % 10));
    } else {
        assert(m < 10 && n < 10);
        assert(decimal(m)[0] == digit(m));
        assert(decimal(n)[0] == digit(n));
    }
}

/// A number and a dot before more text: the first dot is that one.
proof fn lemma_cut_number(n: nat, rest: Seq<char>)
    ensures
        cut(decimal(n) + seq!['.'] + rest, '.') == Some((decimal(n), rest)),
{
    let s = decimal(n) + seq!['.'] + rest;
    let k = decimal(n).len();
    lemma_decimal_digits(n);
    assert forall|i: int| 0 <= i < k implies CharClass::Except('.').has(#[trigger] s[i]) by {
        assert(s[i] == decimal(n)[i]);
    }
    lemma_span_unique(s, CharClass::Except('.'), k);
    assert(s.take(k as int) =~= decimal(n));
    assert(s.skip(k as int + 1) =~= rest);
}

/// Two versions that are written alike have the same numbers.
pub proof fn lemma_release_injective(a: u64, b: u64, c: u64, x: u64, y: u64, z: u64)
    requires
        release_text(a as nat, b as nat, c as nat) == release_text(x as nat, y as nat, z as nat),
    ensures
        a == x && b == y && c == z,
{
    let s = decimal(b as nat) + seq!['.'] + decimal(c as nat);
    let t = decimal(y as nat) + seq!['.'] + decimal(z as nat);
    lemma_cut_number(a as nat, s);
    lemma_cut_number(x as nat, t);
    lemma_decimal_injective(a as nat, x as nat);
    lemma_cut_number(b as nat, decimal(c as nat));
    lemma_cut_number(y as nat, decimal(z as nat));
    lemma_decimal_injective(b as nat, y as nat);
    lemma_decimal_injective(c as nat, z as nat);
}

/// The text of three numbers stands for exactly these numbers.
pub proof fn lemma_release_written(a: u64, b: u64, c: u64)
    ensures
        release_written(release_text(a as nat, b as nat, c as nat)) == Some(release(a, b, c)),
{
    let text = release_text(a as nat, b as nat, c as nat);
    let (x, y, z) = choose|x: u64, y: u64, z: u64|
        text == #[trigger] release_text(x as nat, y as nat, z as nat);
    lemma_release_injective(a, b, c, x, y, z);
}

/// Pieces of a text hold nothing that the text does not hold.
proof fn lemma_split_chars(s: Seq<char>, c: char, class: CharClass)
    requires
        forall|i: int| 0 <= i < s.len() ==> class.has(#[trigger] s[i]),
    ensures
        forall|k: int, i: int|
            0 <= k < split(s, c).len() && 0 <= i < split(s, c)[k].len() ==> class.has(
                #[trigger] split(s, c)[k][i],
            ),
    decreases s.len(),
{
    lemma_span(s, CharClass::Except(c));
    match cut(s, c) {
        Some((before, after)) => {
            assert forall|i: int| 0 <= i < after.len() implies class.has(#[trigger] after[i]) by {
                assert(after[i] == s[before.len() + 1 + i]);
            }
            lemma_split_chars(after, c, class);
            assert forall|k: int, i: int|
                0 <= k < split(s, c).len() && 0 <= i < split(s, c)[k].len() implies class.has(
                #[trigger] split(s, c)[k][i],
            ) by {
                if k == 0 {
                    assert(split(s, c)[k][i] == s[i]);
                } else {
                    assert(split(s, c)[k] == split(after, c)[k - 1]);
                }
            }
        },
        None => {},
    }
}

/// Dotted numbers without a `-` or `+` make a full version without them.
proof fn lemma_full_numbers_chars(core: Seq<char>)
    requires
        forall|i: int| 0 <= i < core.len() ==> CharClass::NotSuffixMark.has(#[trigger] core[i]),
    ensures
        !full_numbers(core).contains('-'),
        !full_numbers(core).contains('+'),
{
    let class = CharClass::NotSuffixMark;
    lemma_split_chars(core, '.', class);
    let parts = split(core, '.');
    let (a, b, c) = (number_at(parts, 0), number_at(parts, 1), number_at(parts, 2));
    let text = full_numbers(core);
    assert(text == a + seq!['.'] + (b + seq!['.'] + c));
    assert forall|i: int| 0 <= i < text.len() implies class.has(#[trigger] text[i]) by {
        if i < a.len() {
            assert(text[i] == a[i]);
        } else if a.len() < i < a.len() + 1 + b.len() {
            assert(text[i] == b[i - a.len() - 1]);
        } else if i > a.len() + 1 + b.len() {
            assert(text[i] == c[i - a.len() - 2 - b.len()]);
        }
    }
}

/// Only a version without pre-release and build metadata is written without `-` and `+`.
proof fn lemma_plain_text(v: VersionView)
    requires
        !version_text(v).contains('-'),
        !version_text(v).contains('+'),
    ensures
        v == release(v.major, v.minor, v.patch),
        version_text(v) == release_text(v.major as nat, v.minor as nat, v.patch as nat),
{
    let numbers = release_text(v.major as nat, v.minor as nat, v.patch as nat);
    let text = version_text(v);
    if v.pre.len() > 0 {
        assert(text[numbers.len() as int] == '-');
    } else if v.build.len() > 0 {
        assert(text[numbers.len() as int] == '+');
    }
    assert(v.pre =~= seq![]);
    assert(v.build =~= seq![]);
    assert(text =~= numbers);
}

/// The number in the given place of a list.
fn part_at(parts: &Vec<String>, i: usize) -> (r: String)
    ensures
        r@ == number_at(views(parts@), i as int),
{
    if i >= parts.len() || same_text(parts[i].as_str(), "x") || same_text(parts[i].as_str(), "X")
        || same_text(parts[i].as_str(), "*") {
        let mut zero = String::new();
        zero.push('0');
        proof {
            assert(zero@ =~= seq!['0']);
        }
        zero
    } else {
        parts[i].clone()
    }
}

/// The dotted numbers that a range such as `^1.2.3`, `~1.0` or `1.x` starts from,
/// as the three numbers of a full version. `None` for what names no number of a
/// registry (`workspace:`, `catalog:`, `npm:`, git, files, URLs, `*`, `latest`).
pub fn range_numbers(range: &str) -> (r: Option<String>)
    ensures
        match range_start(range@) {
            Some(core) => r matches Some(text) && text@ == full_numbers(core),
            None => r is None,
        },
{
    let chars = chars_of(range);
    let s = trimmed(chars.as_slice());
    let whole = text_of(s);
    proof {
        lemma_span(s@, CharClass::Except(':'));
        assert(s@.contains(':') == (span(s@, CharClass::Except(':')) < s@.len())) by {
            if s@.contains(':') {
                let k = choose|k: int| 0 <= k < s@.len() && s@[k] == ':';
                assert(!CharClass::Except(':').has(s@[k]));
            }
        }
    }
    if s.len() == 0 || same_text(whole.as_str(), "*") || same_text(whole.as_str(), "latest")
        || span_len(s, CharClass::Except(':')) < s.len() {
        return None;
    }
    let operators: usize = span_len(s, CharClass::RangeOperator);
    let rest = trimmed_start(skip(s, operators));
    let word = take(rest, span_len(rest, CharClass::NotSpace));
    let core = take(word, span_len(word, CharClass::NotSuffixMark));
    let parts = pieces(core, '.');
    let mut text = part_at(&parts, 0);
    let second = part_at(&parts, 1);
    let third = part_at(&parts, 2);
    let ghost first = text@;
    text.push('.');
    text.append(second.as_str());
    text.push('.');
    text.append(third.as_str());
    proof {
        assert(text@ =~= first + seq!['.'] + (second@ + seq!['.'] + third@));
    }
    Some(text)
}

/// Extracts the base version from a spec like `^1.2.3`, `~1.0`, `1.x`. Returns
/// `None` for other protocols (`workspace:`, `catalog:`, `npm:`, git, files,
/// URLs) and for what does not start from three numbers.
pub fn spec_version(range: &str) -> (r: Option<Version>)
    ensures
        opt_version(r) == range_version(range@),
{
    match range_numbers(range) {
        Some(text) => {
            let parsed = parse_version(text.as_str());
            proof {
                let core = range_start(range@)->0;
                let s = trim(range@);
                let word = first_word(s.skip(span(s, CharClass::RangeOperator) as int));
                lemma_span(word, CharClass::NotSuffixMark);
                assert forall|i: int| 0 <= i < core.len() implies CharClass::NotSuffixMark.has(
                    #[trigger] core[i],
                ) by {
                    assert(core[i] == word[i]);
                }
                lemma_full_numbers_chars(core);
                if parsed is Some {
                    let v = parsed->0@;
                    lemma_plain_text(v);
                    lemma_release_written(v.major, v.minor, v.patch);
                }
            }
            parsed
        },
        None => None,
    }
}

} // verus!

//! Repository addresses as `https` links.
use crate::json::opt_view;
use crate::text::{
    chars_of, cut, has_prefix, lacks, lemma_cut_made, lemma_cut_parts, lemma_span, pieces, position,
    same_text, skip, span, span_len, split, strip_prefixes, strip_suffixes, take, text_of, trim,
    trimmed, views, without_prefixes, without_suffixes, CharClass,
};
use vstd::prelude::*;
use vstd::string::*;

verus! {

/// Whether `c` is the given character or, where that is a small letter, its capital.
pub open spec fn is_letter(c: char, small: char) -> bool {
    c == small || ('a' <= small <= 'z' && c as u32 + 32 == small as u32)
}

/// Whether a text is the given one, in small letters or capitals.
pub open spec fn any_case(s: Seq<char>, small: Seq<char>) -> bool {
    s.len() == small.len() && forall|i: int|
        0 <= i < s.len() ==> is_letter(#[trigger] s[i], small[i])
}

/// Whether a text holds no white space.
pub open spec fn is_unbroken(s: Seq<char>) -> bool {
    span(s, CharClass::NotSpace) == s.len()
}

/// An address without the user before its host.
pub open spec fn without_user(address: Seq<char>) -> Seq<char> {
    match cut(address.take(span(address, CharClass::Except('/')) as int), '@') {
        Some((user, _)) => if user.len() > 0 {
            address.skip(user.len() as int + 1)
        } else {
            address
        },
        None => address,
    }
}

/// The link for a host and a path that a colon parts, if one does.
pub open spec fn parted_link(address: Seq<char>) -> Seq<char> {
    match cut(address, ':') {
        Some((host, path)) => "https://"@ + host + "/"@ + path,
        None => "https://"@ + address,
    }
}

/// The link for a host and a path as `ssh` has them: without the port, which is not one
/// for `https`, if there is one.
pub open spec fn ssh_link(address: Seq<char>) -> Seq<char> {
    match cut(address, '/') {
        Some((host, path)) => match cut(host, ':') {
            Some((name, port)) => if span(port, CharClass::Digit) == port.len() {
                "https://"@ + name + "/"@ + path
            } else {
                parted_link(address)
            },
            None => "https://"@ + address,
        },
        None => parted_link(address),
    }
}

/// What stands before a colon and after it, where no slash stands before it.
pub open spec fn before_colon(url: Seq<char>) -> Option<(Seq<char>, Seq<char>)> {
    match cut(url, ':') {
        Some((name, rest)) => if name.contains('/') {
            None
        } else {
            Some((name, rest))
        },
        None => None,
    }
}

/// The last part of a scheme, as `https` in `git+https`.
pub open spec fn transport(scheme: Seq<char>) -> Seq<char> {
    split(scheme, '+').last()
}

/// Whether a scheme names a host behind it even where no slashes follow.
pub open spec fn names_host(scheme: Seq<char>) -> bool {
    ||| any_case(scheme, "https"@)
    ||| any_case(scheme, "http"@)
    ||| any_case(scheme, "git"@)
    ||| any_case(scheme, "ssh"@)
}

/// The host that a short form such as `github:user/repo` stands for.
pub open spec fn short_host(name: Seq<char>) -> Option<Seq<char>> {
    if any_case(name, "github"@) {
        Some("https://github.com/"@)
    } else if any_case(name, "gitlab"@) {
        Some("https://gitlab.com/"@)
    } else if any_case(name, "bitbucket"@) {
        Some("https://bitbucket.org/"@)
    } else if any_case(name, "gist"@) {
        Some("https://gist.github.com/"@)
    } else {
        None
    }
}

/// Whether a text begins with a port and a slash.
pub open spec fn starts_with_port(rest: Seq<char>) -> bool {
    let k = span(rest, CharClass::Digit) as int;
    0 < k < rest.len() && rest[k] == '/'
}

/// The link for `[user@]host:path`, or for `[user@]host:port/path`, which keeps its port.
pub open spec fn host_link(name: Seq<char>, rest: Seq<char>) -> Option<Seq<char>> {
    let host = without_user(name);
    if name == "git@github.com"@ {
        Some("https://github.com/"@ + rest)
    } else if host.len() == 0 || !is_unbroken(name) || !is_unbroken(rest) {
        None
    } else if starts_with_port(rest) {
        Some("https://"@ + host + ":"@ + rest)
    } else {
        Some("https://"@ + host + "/"@ + rest)
    }
}

/// The link for an address with a colon: behind a scheme, in the short form of a common
/// host, or between a host and a path. Files have none.
pub open spec fn colon_link(name: Seq<char>, rest: Seq<char>) -> Option<Seq<char>> {
    let scheme = transport(name);
    if any_case(scheme, "file"@) {
        None
    } else if names_host(scheme) || "//"@.is_prefix_of(rest) {
        let address = strip_prefixes(rest, "/"@);
        if any_case(scheme, "ssh"@) {
            Some(ssh_link(without_user(address)))
        } else {
            Some("https://"@ + address)
        }
    } else {
        match short_host(name) {
            Some(host) => Some(host + rest),
            None => host_link(name, rest),
        }
    }
}

/// Whether a text names a host with a path, as `github.com/user/repo`.
pub open spec fn starts_with_host(url: Seq<char>) -> bool {
    cut(url, '/') matches Some((host, _)) && host.len() > 0 && host[0] != '.' && host.contains('.')
}

/// Whether a text is a `user/repo`, with or without a path in the repository behind it.
pub open spec fn is_short_form(url: Seq<char>) -> bool {
    cut(url, '/') matches Some((user, repo)) && user.len() > 0 && user[0] != '.' && repo.len() > 0
        && repo[0] != '/'
}

/// Whether a text names a user before a host with a path, as `git@host/user/repo`.
pub open spec fn has_user(url: Seq<char>) -> bool {
    without_user(url).len() < url.len() && without_user(url).contains('/')
}

/// The link for an address without a scheme: `//host/path`, `host.name/path`,
/// `user@host/path` or `user/repo`.
pub open spec fn path_link(url: Seq<char>) -> Option<Seq<char>> {
    let address = without_user(url);
    if "//"@.is_prefix_of(url) {
        Some("https:"@ + url)
    } else if !is_unbroken(url) {
        None
    } else if starts_with_host(address) || has_user(url) {
        Some("https://"@ + address)
    } else if is_short_form(url) {
        Some("https://github.com/"@ + url)
    } else {
        None
    }
}

/// An address without `git+` and `.git` as an `https` link.
pub open spec fn link_of(url: Seq<char>) -> Option<Seq<char>> {
    match before_colon(url) {
        Some((name, rest)) => colon_link(name, rest),
        None => path_link(url),
    }
}

/// An address without white space around it, `git+` before it and `.git` behind it.
pub open spec fn stripped(raw: Seq<char>) -> Seq<char> {
    strip_suffixes(strip_prefixes(trim(raw), "git+"@), ".git"@)
}

/// A repository address as an `https` link. None can be made of a file, of a text that
/// names no host and is no `user/repo`, and of a text with white space in it that has
/// neither a scheme nor the `//` of one before it.
pub open spec fn clickable(raw: Seq<char>) -> Option<Seq<char>> {
    link_of(stripped(raw))
}

/// Whether a text is the given one, in small letters or capitals.
fn is_any_case(s: &[char], small: &str) -> (r: bool)
    ensures
        r == any_case(s@, small@),
{
    let chars = chars_of(small);
    if s.len() != chars.len() {
        return false;
    }
    let mut i: usize = 0;
    while i < s.len()
        invariant
            i <= s@.len(),
            s@.len() == chars@.len(),
            chars@ == small@,
            forall|k: int| 0 <= k < i ==> is_letter(#[trigger] s@[k], small@[k]),
        decreases s@.len() - i,
    {
        let c: char = s[i];
        let letter: char = chars[i];
        let capital = 'a' <= letter && letter <= 'z' && c as u32 == letter as u32 - 32;
        if c != letter && !capital {
            assert(!is_letter(s@[i as int], small@[i as int]));
            return false;
        }
        i += 1;
    }
    true
}

/// A text behind another one.
fn link_to(head: &str, rest: &[char]) -> (r: String)
    ensures
        r@ == head@ + rest@,
{
    let mut link = head.to_string();
    link.append(text_of(rest).as_str());
    link
}

/// A link to a host, with a mark and what follows that.
fn link_with(host: &[char], mark: &str, rest: &[char]) -> (r: String)
    ensures
        r@ == "https://"@ + host@ + mark@ + rest@,
{
    let mut link = link_to("https://", host);
    link.append(mark);
    link.append(text_of(rest).as_str());
    link
}

/// Whether a character occurs in a text.
fn holds(s: &[char], c: char) -> (r: bool)
    ensures
        r == s@.contains(c),
{
    proof {
        lemma_span(s@, CharClass::Except(c));
        if s@.contains(c) {
            let k = choose|k: int| 0 <= k < s@.len() && s@[k] == c;
            assert(!CharClass::Except(c).has(s@[k]));
        }
    }
    position(s, c).is_some()
}

/// The link for a host and a path that a colon parts, if one does.
fn make_parted_link(address: &[char]) -> (r: String)
    ensures
        r@ == parted_link(address@),
{
    match position(address, ':') {
        Some(k) => link_with(take(address, k), "/", skip(address, k + 1)),
        None => link_to("https://", address),
    }
}

/// The link for a host and a path as `ssh` has them.
fn make_ssh_link(address: &[char]) -> (r: String)
    ensures
        r@ == ssh_link(address@),
{
    match position(address, '/') {
        Some(slash) => {
            let host = take(address, slash);
            match position(host, ':') {
                Some(colon) => {
                    let port = skip(host, colon + 1);
                    if span_len(port, CharClass::Digit) == port.len() {
                        link_with(take(host, colon), "/", skip(address, slash + 1))
                    } else {
                        make_parted_link(address)
                    }
                },
                None => link_to("https://", address),
            }
        },
        None => make_parted_link(address),
    }
}

/// An address without the user before its host.
fn drop_user(address: &[char]) -> (r: &[char])
    ensures
        r@ == without_user(address@),
        r@.len() <= address@.len(),
{
    let authority = take(address, span_len(address, CharClass::Except('/')));
    match position(authority, '@') {
        Some(k) => if k > 0 {
            skip(address, k + 1)
        } else {
            address
        },
        None => address,
    }
}

/// The last part of a scheme.
fn scheme_transport(scheme: &[char]) -> (r: Vec<char>)
    ensures
        r@ == transport(scheme@),
{
    let parts = pieces(scheme, '+');
    proof {
        assert(split(scheme@, '+').last() == views(parts@).last());
    }
    chars_of(parts[parts.len() - 1].as_str())
}

/// The host that a short form stands for.
fn find_short_host(name: &[char]) -> (r: Option<&'static str>)
    ensures
        match r {
            Some(host) => short_host(name@) == Some(host@),
            None => short_host(name@) is None,
        },
{
    if is_any_case(name, "github") {
        Some("https://github.com/")
    } else if is_any_case(name, "gitlab") {
        Some("https://gitlab.com/")
    } else if is_any_case(name, "bitbucket") {
        Some("https://bitbucket.org/")
    } else if is_any_case(name, "gist") {
        Some("https://gist.github.com/")
    } else {
        None
    }
}

/// The link for a host and a path or a port behind a colon.
fn make_host_link(name: &[char], rest: &[char]) -> (r: Option<String>)
    ensures
        opt_view(r) == host_link(name@, rest@),
{
    let whole = text_of(name);
    if same_text(whole.as_str(), "git@github.com") {
        return Some(link_to("https://github.com/", rest));
    }
    let host = drop_user(name);
    if host.len() == 0 || span_len(name, CharClass::NotSpace) != name.len() || span_len(
        rest,
        CharClass::NotSpace,
    ) != rest.len() {
        return None;
    }
    let digits: usize = span_len(rest, CharClass::Digit);
    if digits > 0 && digits < rest.len() && rest[digits] == '/' {
        Some(link_with(host, ":", rest))
    } else {
        Some(link_with(host, "/", rest))
    }
}

/// The link for an address with a colon.
fn make_colon_link(name: &[char], rest: &[char]) -> (r: Option<String>)
    ensures
        opt_view(r) == colon_link(name@, rest@),
{
    let found = scheme_transport(name);
    let scheme = found.as_slice();
    if is_any_case(scheme, "file") {
        return None;
    }
    let slashes = chars_of("//");
    if is_any_case(scheme, "https") || is_any_case(scheme, "http") || is_any_case(scheme, "git")
        || is_any_case(scheme, "ssh") || has_prefix(rest, slashes.as_slice()) {
        let slash = chars_of("/");
        let address = without_prefixes(rest, slash.as_slice());
        if is_any_case(scheme, "ssh") {
            Some(make_ssh_link(drop_user(address)))
        } else {
            Some(link_to("https://", address))
        }
    } else {
        match find_short_host(name) {
            Some(host) => Some(link_to(host, rest)),
            None => make_host_link(name, rest),
        }
    }
}

/// The link for an address without a scheme.
fn make_path_link(url: &[char]) -> (r: Option<String>)
    ensures
        opt_view(r) == path_link(url@),
{
    let slashes = chars_of("//");
    if has_prefix(url, slashes.as_slice()) {
        return Some(link_to("https:", url));
    }
    if span_len(url, CharClass::NotSpace) != url.len() {
        return None;
    }
    let address = drop_user(url);
    if address.len() < url.len() && holds(address, '/') {
        return Some(link_to("https://", address));
    }
    if let Some(slash) = position(address, '/') {
        let first = take(address, slash);
        if first.len() > 0 && first[0] != '.' && holds(first, '.') {
            return Some(link_to("https://", address));
        }
    }
    match position(url, '/') {
        Some(slash) => {
            let rest = skip(url, slash + 1);
            if slash > 0 && url[0] != '.' && rest.len() > 0 && rest[0] != '/' {
                Some(link_to("https://github.com/", url))
            } else {
                None
            }
        },
        None => None,
    }
}

/// A repository address as an `https` link, if it can be made one.
pub fn clickable_url(raw: &str) -> (r: Option<String>)
    ensures
        opt_view(r) == clickable(raw@),
        r matches Some(link) ==> "https://"@.is_prefix_of(link@),
{
    let chars = chars_of(raw);
    let plus = chars_of("git+");
    let dot = chars_of(".git");
    let url = without_suffixes(
        without_prefixes(trimmed(chars.as_slice()), plus.as_slice()),
        dot.as_slice(),
    );
    proof {
        law_clickable(raw@);
    }
    match position(url, ':') {
        Some(colon) => {
            let name = take(url, colon);
            if holds(name, '/') {
                make_path_link(url)
            } else {
                make_colon_link(name, skip(url, colon + 1))
            }
        },
        None => make_path_link(url),
    }
}

proof fn lemma_strip_suffixes(s: Seq<char>, suffix: Seq<char>)
    requires
        suffix.len() > 0,
    ensures
        !suffix.is_suffix_of(strip_suffixes(s, suffix)),
    decreases s.len(),
{
    if suffix.is_suffix_of(s) {
        lemma_strip_suffixes(s.take(s.len() - suffix.len()), suffix);
    }
}

proof fn lemma_strip_prefixes(s: Seq<char>, prefix: Seq<char>) -> (k: int)
    ensures
        0 <= k <= s.len(),
        strip_prefixes(s, prefix) == s.skip(k),
    decreases s.len(),
{
    if prefix.len() > 0 && prefix.is_prefix_of(s) {
        let n = prefix.len() as int;
        let k = lemma_strip_prefixes(s.skip(n), prefix);
        assert(s.skip(n).skip(k) =~= s.skip(n + k));
        n + k
    } else {
        assert(s.skip(0) =~= s);
        0
    }
}

/// A text that does not end in `.git` does not do so after a slash either.
proof fn lemma_no_git_suffix(head: Seq<char>, url: Seq<char>, k: int)
    requires
        head.len() > 0,
        head.last() == '/',
        0 <= k <= url.len(),
        !".git"@.is_suffix_of(url),
    ensures
        !".git"@.is_suffix_of(head + url.skip(k)),
{
    reveal_strlit(".git");
    let dot = ".git"@;
    assert(dot =~= seq!['.', 'g', 'i', 't']);
    let rest = url.skip(k);
    let s = head + rest;
    if dot.is_suffix_of(s) {
        let end = s.subrange(s.len() - 4, s.len() as int);
        assert(dot =~= end);
        if rest.len() >= 4 {
            assert(end =~= url.subrange(url.len() - 4, url.len() as int));
            assert(dot.is_suffix_of(url));
        } else {
            let at = 3 - rest.len();
            assert(end[at] == head.last());
            assert(dot[at] != '/');
        }
    }
}

/// Whether a link is `https`, up to a slash, and the end of an address.
spec fn is_https_end(link: Seq<char>, address: Seq<char>, head: Seq<char>, k: int) -> bool {
    &&& 0 <= k <= address.len()
    &&& link == head + address.skip(k)
    &&& "https://"@.is_prefix_of(head)
    &&& head.len() > 0
    &&& head.last() == '/'
}

/// The end of the end of an address is an end of the address.
proof fn lemma_end(
    link: Seq<char>,
    url: Seq<char>,
    from: int,
    part: Seq<char>,
    head: Seq<char>,
    k: int,
)
    requires
        0 <= from <= url.len(),
        part == url.skip(from),
        is_https_end(link, part, head, k),
    ensures
        is_https_end(link, url, head, from + k),
{
    assert(part.skip(k) =~= url.skip(from + k));
}

proof fn lemma_https_head(middle: Seq<char>)
    ensures
        "https://"@.last() == '/',
        "https://"@.len() > 0,
        ("https://"@ + middle + "/"@).last() == '/',
        "https://"@.is_prefix_of("https://"@ + middle + "/"@),
        "https://"@.is_prefix_of("https://"@),
{
    reveal_strlit("https://");
    reveal_strlit("/");
    let h = "https://"@;
    assert((h + middle + "/"@).subrange(0, 8) =~= h);
    assert(h.subrange(0, 8) =~= h);
}

proof fn lemma_whole(address: Seq<char>)
    ensures
        is_https_end("https://"@ + address, address, "https://"@, 0),
{
    lemma_https_head(seq![]);
    assert(address.skip(0) =~= address);
}

proof fn lemma_parted_link(address: Seq<char>) -> (r: (Seq<char>, int))
    ensures
        is_https_end(parted_link(address), address, r.0, r.1),
{
    match cut(address, ':') {
        Some((host, path)) => {
            lemma_cut_parts(address, ':');
            lemma_https_head(host);
            assert(path =~= address.skip(host.len() as int + 1));
            ("https://"@ + host + "/"@, host.len() as int + 1)
        },
        None => {
            lemma_whole(address);
            ("https://"@, 0)
        },
    }
}

proof fn lemma_ssh_link(address: Seq<char>) -> (r: (Seq<char>, int))
    ensures
        is_https_end(ssh_link(address), address, r.0, r.1),
{
    match cut(address, '/') {
        Some((host, path)) => {
            lemma_cut_parts(address, '/');
            match cut(host, ':') {
                Some((name, port)) => {
                    if span(port, CharClass::Digit) == port.len() {
                        lemma_https_head(name);
                        assert(path =~= address.skip(host.len() as int + 1));
                        ("https://"@ + name + "/"@, host.len() as int + 1)
                    } else {
                        lemma_parted_link(address)
                    }
                },
                None => {
                    lemma_whole(address);
                    ("https://"@, 0)
                },
            }
        },
        None => lemma_parted_link(address),
    }
}

proof fn lemma_short_host(name: Seq<char>)
    ensures
        short_host(name) matches Some(host) ==> {
            &&& "https://"@.is_prefix_of(host)
            &&& host.len() > 0
            &&& host.last() == '/'
        },
        "https://"@.is_prefix_of("https://github.com/"@),
        "https://github.com/"@.len() > 0,
        "https://github.com/"@.last() == '/',
{
    reveal_strlit("https://");
    reveal_strlit("https://github.com/");
    reveal_strlit("https://gitlab.com/");
    reveal_strlit("https://bitbucket.org/");
    reveal_strlit("https://gist.github.com/");
    let h = "https://"@;
    assert("https://github.com/"@.subrange(0, 8) =~= h);
    assert("https://gitlab.com/"@.subrange(0, 8) =~= h);
    assert("https://bitbucket.org/"@.subrange(0, 8) =~= h);
    assert("https://gist.github.com/"@.subrange(0, 8) =~= h);
}

proof fn lemma_without_user(address: Seq<char>) -> (k: int)
    ensures
        0 <= k <= address.len(),
        without_user(address) == address.skip(k),
{
    lemma_span(address, CharClass::Except('/'));
    let authority = address.take(span(address, CharClass::Except('/')) as int);
    assert(address.skip(0) =~= address);
    match cut(authority, '@') {
        Some((user, _)) => {
            lemma_cut_parts(authority, '@');
            if user.len() > 0 {
                user.len() as int + 1
            } else {
                0
            }
        },
        None => 0,
    }
}

/// What the link for a host with a path or a port behind a colon ends in.
proof fn lemma_host_link(name: Seq<char>, rest: Seq<char>) -> (r: (Seq<char>, int))
    requires
        host_link(name, rest) is Some,
    ensures
        is_https_end(host_link(name, rest)->0, name + seq![':'] + rest, r.0, r.1),
{
    let url = name + seq![':'] + rest;
    let from = name.len() as int + 1;
    lemma_short_host(name);
    assert(url.skip(from) =~= rest);
    let host = without_user(name);
    if name == "git@github.com"@ {
        ("https://github.com/"@, from)
    } else if starts_with_port(rest) {
        let k = lemma_without_user(name);
        reveal_strlit(":");
        assert(":"@ =~= seq![':']);
        lemma_whole(url.skip(k));
        assert(url.skip(k) =~= host + ":"@ + rest);
        assert("https://"@ + host + ":"@ + rest =~= "https://"@ + url.skip(k));
        lemma_end(host_link(name, rest)->0, url, k, url.skip(k), "https://"@, 0);
        ("https://"@, k)
    } else {
        lemma_https_head(host);
        ("https://"@ + host + "/"@, from)
    }
}

/// What the link for an address with a colon ends in.
proof fn lemma_colon_link(name: Seq<char>, rest: Seq<char>) -> (r: (Seq<char>, int))
    requires
        colon_link(name, rest) is Some,
    ensures
        is_https_end(colon_link(name, rest)->0, name + seq![':'] + rest, r.0, r.1),
{
    let url = name + seq![':'] + rest;
    let link = colon_link(name, rest)->0;
    let from = name.len() as int + 1;
    assert(url.skip(from) =~= rest);
    let scheme = transport(name);
    if names_host(scheme) || "//"@.is_prefix_of(rest) {
        let j = lemma_strip_prefixes(rest, "/"@);
        let address = strip_prefixes(rest, "/"@);
        assert(address =~= url.skip(from + j));
        if any_case(scheme, "ssh"@) {
            let u = lemma_without_user(address);
            let (head, k) = lemma_ssh_link(without_user(address));
            assert(without_user(address) =~= url.skip(from + j + u));
            lemma_end(link, url, from + j + u, without_user(address), head, k);
            (head, from + j + u + k)
        } else {
            lemma_whole(address);
            lemma_end(link, url, from + j, address, "https://"@, 0);
            ("https://"@, from + j)
        }
    } else if short_host(name) is Some {
        lemma_short_host(name);
        (short_host(name)->0, from)
    } else {
        lemma_host_link(name, rest)
    }
}

/// What the link for an address without a scheme ends in.
proof fn lemma_path_link(url: Seq<char>) -> (r: (Seq<char>, int))
    requires
        path_link(url) is Some,
    ensures
        is_https_end(path_link(url)->0, url, r.0, r.1),
{
    let link = path_link(url)->0;
    let k = lemma_without_user(url);
    let address = without_user(url);
    if "//"@.is_prefix_of(url) {
        reveal_strlit("//");
        reveal_strlit("https:");
        reveal_strlit("https://");
        lemma_https_head(seq![]);
        assert("//"@ =~= url.subrange(0, 2));
        assert("https:"@ + "//"@ =~= "https://"@);
        assert(link =~= "https://"@ + url.skip(2));
        ("https://"@, 2)
    } else if starts_with_host(address) || has_user(url) {
        lemma_whole(address);
        lemma_end(link, url, k, address, "https://"@, 0);
        ("https://"@, k)
    } else {
        lemma_short_host(url);
        assert(url.skip(0) =~= url);
        ("https://github.com/"@, 0)
    }
}

/// A link is an `https` address and does not end in `.git`.
pub proof fn law_clickable(raw: Seq<char>)
    ensures
        clickable(raw) matches Some(link) ==> {
            &&& "https://"@.is_prefix_of(link)
            &&& !".git"@.is_suffix_of(link)
        },
{
    reveal_strlit(".git");
    let url = stripped(raw);
    lemma_strip_suffixes(strip_prefixes(trim(raw), "git+"@), ".git"@);
    if clickable(raw) is Some {
        let link = clickable(raw)->0;
        let (head, k) = match before_colon(url) {
            Some((name, rest)) => {
                lemma_cut_parts(url, ':');
                lemma_colon_link(name, rest)
            },
            None => lemma_path_link(url),
        };
        let h = "https://"@;
        assert(link.subrange(0, h.len() as int) =~= head.subrange(0, h.len() as int));
        lemma_no_git_suffix(head, url, k);
    }
}

/// Whether an address has one of the forms that a link is made of. With a colon these are
/// `scheme:` of a web address or of `ssh`, any other `scheme://` but that of a file, the
/// short form of a common host, and `[user@]host:path` without white space. Without one
/// they are `//host/path` and, without white space, `host.name/path`, `user@host/path` and
/// `user/repo`.
pub open spec fn has_https_form(url: Seq<char>) -> bool {
    match before_colon(url) {
        Some((name, rest)) => {
            let scheme = transport(name);
            &&& !any_case(scheme, "file"@)
            &&& {
                ||| names_host(scheme)
                ||| "//"@.is_prefix_of(rest)
                ||| short_host(name) is Some
                ||| name == "git@github.com"@
                ||| without_user(name).len() > 0 && is_unbroken(name) && is_unbroken(rest)
            }
        },
        None => {
            ||| "//"@.is_prefix_of(url)
            ||| is_unbroken(url) && (starts_with_host(without_user(url)) || has_user(url)
                || is_short_form(url))
        },
    }
}

/// An address gives a link exactly if it has a form that a link is made of.
pub proof fn law_link_owed(raw: Seq<char>)
    ensures
        clickable(raw) is Some <==> has_https_form(stripped(raw)),
{
}

/// Whether a text holds neither a colon nor a slash.
pub open spec fn lacks_marks(name: Seq<char>) -> bool {
    !name.contains('/') && lacks(name, ':')
}

/// A host with a path behind a colon, with or without a user before it, gives the link to
/// that path on that host.
pub proof fn law_host_and_path(name: Seq<char>, path: Seq<char>)
    requires
        lacks_marks(name),
        without_user(name).len() > 0,
        is_unbroken(name),
        is_unbroken(path),
        !any_case(transport(name), "file"@),
        !names_host(transport(name)),
        short_host(name) is None,
        !"//"@.is_prefix_of(path),
        !starts_with_port(path),
    ensures
        link_of(name + ":"@ + path) == Some("https://"@ + without_user(name) + "/"@ + path),
{
    reveal_strlit(":");
    assert(":"@ =~= seq![':']);
    lemma_cut_made(name, ':', path);
    if name == "git@github.com"@ {
        reveal_strlit("git@github.com");
        reveal_strlit("https://github.com/");
        reveal_strlit("https://");
        reveal_strlit("/");
        let user = seq!['g', 'i', 't'];
        let host = name.skip(4);
        lemma_span(name, CharClass::Except('/'));
        assert(span(name, CharClass::Except('/')) == name.len());
        assert(name.take(name.len() as int) =~= name);
        assert(name =~= user + seq!['@'] + host);
        lemma_cut_made(user, '@', host);
        assert(without_user(name) == host);
        assert("https://"@ + host + "/"@ =~= "https://github.com/"@);
    }
}

} // verus!

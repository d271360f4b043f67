//! Which link each form of a repository address gives.
use crate::links::{
    any_case, clickable, colon_link, is_unbroken, link_of, names_host, path_link, short_host,
    ssh_link, starts_with_port, transport, without_user,
};
use crate::text::{
    cut, is_space, lacks, lemma_cut_made, lemma_cut_parts, lemma_span, lemma_span_unique, span,
    strip_prefixes, CharClass,
};
use crate::text_laws::{
    is_blank, is_tight, law_split, law_strip_prefixes, law_strip_suffixes, law_trim,
};
use crate::workspace_laws::lemma_last_piece;
use vstd::prelude::*;

verus! {

/// Whether a text spells a word, in small letters or capitals.
pub open spec fn spells(s: Seq<char>, word: Seq<char>) -> bool {
    &&& s.len() == word.len()
    &&& forall|i: int|
        0 <= i < s.len() ==> {
            ||| #[trigger] s[i] == word[i]
            ||| 'a' <= word[i] <= 'z' && s[i] as u32 + 32 == word[i] as u32
        }
}

/// Whether a text is a name: not empty, without white space and without `: / @ +`.
pub open spec fn is_name(s: Seq<char>) -> bool {
    &&& s.len() > 0
    &&& forall|i: int|
        0 <= i < s.len() ==> !is_space(#[trigger] s[i]) && s[i] != ':' && s[i] != '/' && s[i] != '@'
            && s[i] != '+'
}

/// Whether no character of a text is white space.
pub open spec fn is_solid(s: Seq<char>) -> bool {
    forall|i: int| 0 <= i < s.len() ==> !is_space(#[trigger] s[i])
}

/// Whether a text is slashes alone.
pub open spec fn is_slashes(s: Seq<char>) -> bool {
    forall|i: int| 0 <= i < s.len() ==> #[trigger] s[i] == '/'
}

proof fn lemma_spells(s: Seq<char>, word: Seq<char>)
    ensures
        spells(s, word) == any_case(s, word),
{
}

/// The words that schemes and short forms are spelled with.
proof fn lemma_words()
    ensures
        "https"@ == seq!['h', 't', 't', 'p', 's'],
        "http"@ == seq!['h', 't', 't', 'p'],
        "git"@ == seq!['g', 'i', 't'],
        "ssh"@ == seq!['s', 's', 'h'],
        "file"@ == seq!['f', 'i', 'l', 'e'],
        "github"@ == seq!['g', 'i', 't', 'h', 'u', 'b'],
        "gitlab"@ == seq!['g', 'i', 't', 'l', 'a', 'b'],
        "bitbucket"@ == seq!['b', 'i', 't', 'b', 'u', 'c', 'k', 'e', 't'],
        "gist"@ == seq!['g', 'i', 's', 't'],
{
    reveal_strlit("https");
    reveal_strlit("http");
    reveal_strlit("git");
    reveal_strlit("ssh");
    reveal_strlit("file");
    reveal_strlit("github");
    reveal_strlit("gitlab");
    reveal_strlit("bitbucket");
    reveal_strlit("gist");
    assert("https"@ =~= seq!['h', 't', 't', 'p', 's']);
    assert("http"@ =~= seq!['h', 't', 't', 'p']);
    assert("git"@ =~= seq!['g', 'i', 't']);
    assert("ssh"@ =~= seq!['s', 's', 'h']);
    assert("file"@ =~= seq!['f', 'i', 'l', 'e']);
    assert("github"@ =~= seq!['g', 'i', 't', 'h', 'u', 'b']);
    assert("gitlab"@ =~= seq!['g', 'i', 't', 'l', 'a', 'b']);
    assert("bitbucket"@ =~= seq!['b', 'i', 't', 'b', 'u', 'c', 'k', 'e', 't']);
    assert("gist"@ =~= seq!['g', 'i', 's', 't']);
}

/// A word of small letters holds nothing else in any spelling.
proof fn lemma_spelled(s: Seq<char>, word: Seq<char>)
    requires
        spells(s, word),
        forall|i: int| 0 <= i < word.len() ==> 'a' <= #[trigger] word[i] <= 'z',
    ensures
        forall|i: int| 0 <= i < s.len() ==> 'a' <= #[trigger] s[i] <= 'z' || 'A' <= s[i] <= 'Z',
{
    assert forall|i: int| 0 <= i < s.len() implies 'a' <= #[trigger] s[i] <= 'z' || 'A' <= s[i]
        <= 'Z' by {
        let (c, w) = (s[i], word[i]);
        assert('a' <= w <= 'z');
        lemma_letter(c, w);
    }
}

proof fn lemma_letter(c: char, w: char)
    requires
        'a' <= w <= 'z',
        c == w || c as u32 + 32 == w as u32,
    ensures
        'a' <= c <= 'z' || 'A' <= c <= 'Z',
{
}

/// A scheme before a colon, with or without others and plus signs before it.
pub open spec fn is_scheme(name: Seq<char>, lead: Seq<char>, scheme: Seq<char>) -> bool {
    &&& name == lead + scheme
    &&& lead.len() > 0 ==> lead.last() == '+'
    &&& lacks(lead, ':') && lacks(lead, '/')
}

/// What a scheme and what follows it are read as.
proof fn lemma_scheme(
    name: Seq<char>,
    lead: Seq<char>,
    scheme: Seq<char>,
    word: Seq<char>,
    rest: Seq<char>,
)
    requires
        is_scheme(name, lead, scheme),
        spells(scheme, word),
        forall|i: int| 0 <= i < word.len() ==> 'a' <= #[trigger] word[i] <= 'z',
    ensures
        transport(name) == scheme,
        link_of(name + seq![':'] + rest) == colon_link(name, rest),
{
    lemma_spelled(scheme, word);
    lemma_any_scheme(name, lead, scheme, rest);
}

/// All slashes before an address are taken away.
proof fn lemma_slashes(slashes: Seq<char>, address: Seq<char>)
    requires
        is_slashes(slashes),
        address.len() > 0 ==> address[0] != '/',
    ensures
        strip_prefixes(slashes + address, "/"@) == address,
    decreases slashes.len(),
{
    reveal_strlit("/");
    assert("/"@ =~= seq!['/']);
    if slashes.len() == 0 {
        assert(slashes + address =~= address);
        if "/"@.is_prefix_of(address) {
            assert("/"@ =~= address.subrange(0, 1));
            assert(address.subrange(0, 1)[0] == address[0]);
        }
        law_strip_prefixes(address, "/"@);
    } else {
        let rest = slashes.drop_first();
        assert(slashes[0] == '/');
        assert forall|i: int| 0 <= i < rest.len() implies #[trigger] rest[i] == '/' by {
            assert(rest[i] == slashes[i + 1]);
        }
        assert(slashes + address =~= "/"@ + (rest + address));
        law_strip_prefixes(rest + address, "/"@);
        lemma_slashes(rest, address);
    }
}

/// An address behind the scheme `https`, `http` or `git`, in small letters or capitals, with
/// other schemes before it or none, gives the `https` link to it.
pub proof fn law_scheme_link(
    lead: Seq<char>,
    scheme: Seq<char>,
    slashes: Seq<char>,
    address: Seq<char>,
)
    requires
        is_scheme(lead + scheme, lead, scheme),
        spells(scheme, "https"@) || spells(scheme, "http"@) || spells(scheme, "git"@),
        is_slashes(slashes),
        address.len() > 0 ==> address[0] != '/',
    ensures
        link_of(lead + scheme + seq![':'] + (slashes + address)) == Some("https://"@ + address),
{
    lemma_words();
    let name = lead + scheme;
    let word = if spells(scheme, "https"@) {
        "https"@
    } else if spells(scheme, "http"@) {
        "http"@
    } else {
        "git"@
    };
    assert forall|i: int| 0 <= i < word.len() implies 'a' <= #[trigger] word[i] <= 'z' by {}
    lemma_scheme(name, lead, scheme, word, slashes + address);
    lemma_slashes(slashes, address);
    lemma_spells(scheme, "https"@);
    lemma_spells(scheme, "http"@);
    lemma_spells(scheme, "git"@);
    assert(scheme[0] == word[0] || scheme[0] as u32 + 32 == word[0] as u32);
    lemma_not_spelled(scheme, "file"@);
    lemma_not_spelled(scheme, "ssh"@);
}

/// A text with another first letter does not spell a word.
proof fn lemma_not_spelled(s: Seq<char>, word: Seq<char>)
    requires
        s.len() > 0,
        word.len() > 0,
        s[0] != word[0],
        s[0] as u32 + 32 != word[0] as u32,
    ensures
        !any_case(s, word),
{
    if any_case(s, word) {
        assert(crate::links::is_letter(s[0], word[0]));
    }
}

/// Any other scheme with two slashes behind it, with others before it or none, gives the
/// `https` link to what follows.
pub proof fn law_other_scheme(
    lead: Seq<char>,
    scheme: Seq<char>,
    slashes: Seq<char>,
    address: Seq<char>,
)
    requires
        is_scheme(lead + scheme, lead, scheme),
        lacks(scheme, '+') && lacks(scheme, ':') && lacks(scheme, '/'),
        !spells(scheme, "ssh"@) && !spells(scheme, "file"@),
        is_slashes(slashes),
        slashes.len() >= 2,
        address.len() > 0 ==> address[0] != '/',
    ensures
        link_of(lead + scheme + seq![':'] + (slashes + address)) == Some("https://"@ + address),
{
    let rest = slashes + address;
    lemma_any_scheme(lead + scheme, lead, scheme, rest);
    lemma_slashes(slashes, address);
    lemma_spells(scheme, "ssh"@);
    lemma_spells(scheme, "file"@);
    reveal_strlit("//");
    assert(slashes[0] == '/' && slashes[1] == '/');
    assert("//"@ =~= rest.subrange(0, 2));
    assert("//"@.is_prefix_of(rest));
}

/// What the last scheme before a colon is.
proof fn lemma_any_scheme(name: Seq<char>, lead: Seq<char>, scheme: Seq<char>, rest: Seq<char>)
    requires
        is_scheme(name, lead, scheme),
        lacks(scheme, '+') && lacks(scheme, ':') && lacks(scheme, '/'),
    ensures
        transport(name) == scheme,
        link_of(name + seq![':'] + rest) == colon_link(name, rest),
{
    if lead.len() > 0 {
        let dir = lead.drop_last();
        assert(name =~= dir + seq!['+'] + scheme);
        lemma_last_piece(dir, '+', scheme);
    } else {
        assert(name =~= scheme);
        law_split(scheme, '+', scheme);
    }
    assert forall|i: int| 0 <= i < name.len() implies #[trigger] name[i] != ':' && name[i]
        != '/' by {
        if i < lead.len() {
            assert(name[i] == lead[i]);
        } else {
            assert(name[i] == scheme[i - lead.len()]);
        }
    }
    lemma_cut_made(name, ':', rest);
    assert(!name.contains('/'));
}

/// What a name before a colon is read as.
proof fn lemma_plain_name(name: Seq<char>, rest: Seq<char>)
    requires
        lacks(name, ':'),
        lacks(name, '/'),
        lacks(name, '+'),
    ensures
        transport(name) == name,
        link_of(name + seq![':'] + rest) == colon_link(name, rest),
{
    law_split(name, '+', name);
    lemma_cut_made(name, ':', rest);
    assert(!name.contains('/'));
}

/// A file gives no link, whatever stands before `file` and behind the colon.
pub proof fn law_file_link(lead: Seq<char>, scheme: Seq<char>, rest: Seq<char>)
    requires
        is_scheme(lead + scheme, lead, scheme),
        spells(scheme, "file"@),
    ensures
        link_of(lead + scheme + seq![':'] + rest) is None,
{
    lemma_words();
    assert forall|i: int| 0 <= i < "file"@.len() implies 'a' <= #[trigger] "file"@[i] <= 'z' by {}
    lemma_scheme(lead + scheme, lead, scheme, "file"@, rest);
    lemma_spells(scheme, "file"@);
}

/// The short forms of the common hosts.
pub proof fn law_short_form(name: Seq<char>, rest: Seq<char>)
    requires
        !"//"@.is_prefix_of(rest),
    ensures
        spells(name, "github"@) ==> link_of(name + seq![':'] + rest) == Some(
            "https://github.com/"@ + rest,
        ),
        spells(name, "gitlab"@) ==> link_of(name + seq![':'] + rest) == Some(
            "https://gitlab.com/"@ + rest,
        ),
        spells(name, "bitbucket"@) ==> link_of(name + seq![':'] + rest) == Some(
            "https://bitbucket.org/"@ + rest,
        ),
        spells(name, "gist"@) ==> link_of(name + seq![':'] + rest) == Some(
            "https://gist.github.com/"@ + rest,
        ),
{
    lemma_words();
    assert("github"@ != "gitlab"@) by {
        assert("github"@[3] != "gitlab"@[3]);
    }
    assert("bitbucket"@.len() == 9 && "gist"@.len() == 4);
    if spells(name, "github"@) {
        lemma_short_name(name, "github"@, rest);
    }
    if spells(name, "gitlab"@) {
        lemma_short_name(name, "gitlab"@, rest);
    }
    if spells(name, "bitbucket"@) {
        lemma_short_name(name, "bitbucket"@, rest);
    }
    if spells(name, "gist"@) {
        lemma_short_name(name, "gist"@, rest);
    }
}

proof fn lemma_short_name(name: Seq<char>, word: Seq<char>, rest: Seq<char>)
    requires
        word == "github"@ || word == "gitlab"@ || word == "bitbucket"@ || word == "gist"@,
        spells(name, word),
        !"//"@.is_prefix_of(rest),
    ensures
        link_of(name + seq![':'] + rest) == Some(
            (if word == "github"@ {
                "https://github.com/"@
            } else if word == "gitlab"@ {
                "https://gitlab.com/"@
            } else if word == "bitbucket"@ {
                "https://bitbucket.org/"@
            } else {
                "https://gist.github.com/"@
            }) + rest,
        ),
{
    lemma_words();
    assert forall|i: int| 0 <= i < word.len() implies 'a' <= #[trigger] word[i] <= 'z' by {}
    lemma_spelled(name, word);
    lemma_plain_name(name, rest);
    lemma_spells(name, word);
    assert(name[0] == word[0] || name[0] as u32 + 32 == word[0] as u32);
    if word == "gist"@ {
        lemma_not_spelled(name, "file"@);
        lemma_not_spelled(name, "http"@);
    }
    if word == "gitlab"@ {
        if any_case(name, "github"@) {
            assert(crate::links::is_letter(name[3], "github"@[3]));
            assert(name[3] == word[3] || name[3] as u32 + 32 == word[3] as u32);
        }
    }
    assert("github"@ != "gitlab"@) by {
        assert("github"@[3] != "gitlab"@[3]);
    }
    assert(!names_host(name));
    assert(!any_case(name, "file"@));
}

/// What follows the user of an address.
proof fn lemma_user(user: Seq<char>, host: Seq<char>, rest: Seq<char>)
    requires
        is_name(user),
        is_name(host),
        rest.len() > 0 ==> rest[0] == '/' || rest[0] == ':',
        rest.len() > 0 && rest[0] == ':' ==> lacks(
            rest.take(span(rest, CharClass::Except('/')) as int),
            '@',
        ),
    ensures
        without_user(user + seq!['@'] + (host + rest)) == host + rest,
{
    let address = user + seq!['@'] + (host + rest);
    let k = span(address, CharClass::Except('/')) as int;
    lemma_span(address, CharClass::Except('/'));
    let n = (user.len() + 1 + host.len()) as int;
    if k < n {
        assert(address[k] == '/');
        if k < user.len() {
            assert(address[k] == user[k]);
        } else if k > user.len() {
            assert(address[k] == host[k - user.len() - 1]);
        }
    }
    let authority = address.take(k);
    let after = authority.skip(user.len() as int + 1);
    assert(authority =~= user + seq!['@'] + after);
    lemma_cut_made(user, '@', after);
    assert(address.skip(user.len() as int + 1) =~= host + rest);
}

/// Without a user an address stays as it is.
proof fn lemma_no_user(host: Seq<char>, rest: Seq<char>)
    requires
        is_name(host),
        rest.len() > 0 ==> rest[0] == '/',
    ensures
        without_user(host + rest) == host + rest,
{
    let address = host + rest;
    let k = span(address, CharClass::Except('/')) as int;
    lemma_span(address, CharClass::Except('/'));
    if rest.len() > 0 {
        assert(address[host.len() as int] == '/');
        assert forall|i: int| 0 <= i < host.len() implies CharClass::Except('/').has(
            #[trigger] address[i],
        ) by {
            assert(address[i] == host[i]);
        }
        lemma_span_unique(address, CharClass::Except('/'), host.len());
    }
    let authority = address.take(k);
    if cut(authority, '@') is Some {
        lemma_cut_parts(authority, '@');
        let (a, b) = cut(authority, '@')->0;
        assert(authority[a.len() as int] == '@');
        assert(authority[a.len() as int] == host[a.len() as int]);
    }
}

/// A host with a path behind a slash has no port.
proof fn lemma_ssh_host(host: Seq<char>, path: Seq<char>)
    requires
        is_name(host),
    ensures
        ssh_link(host + seq!['/'] + path) == "https://"@ + (host + seq!['/'] + path),
{
    let address = host + seq!['/'] + path;
    assert(lacks(host, '/'));
    lemma_cut_made(host, '/', path);
    if cut(host, ':') is Some {
        lemma_cut_parts(host, ':');
        let (a, b) = cut(host, ':')->0;
        assert(host[a.len() as int] == ':');
    }
}

/// A port that is digits alone is left out.
proof fn lemma_ssh_port(host: Seq<char>, port: Seq<char>, path: Seq<char>)
    requires
        is_name(host),
        forall|i: int| 0 <= i < port.len() ==> '0' <= #[trigger] port[i] <= '9',
    ensures
        ssh_link(host + (seq![':'] + port + seq!['/'] + path)) == "https://"@ + host + "/"@ + path,
{
    let front = host + seq![':'] + port;
    let address = host + (seq![':'] + port + seq!['/'] + path);
    assert(address =~= front + seq!['/'] + path);
    assert forall|i: int| 0 <= i < front.len() implies #[trigger] front[i] != '/' by {
        if i < host.len() {
            assert(front[i] == host[i]);
        } else if i > host.len() {
            assert(front[i] == port[i - host.len() - 1]);
        }
    }
    lemma_cut_made(front, '/', path);
    assert(lacks(host, ':'));
    lemma_cut_made(host, ':', port);
    lemma_span_unique(port, CharClass::Digit, port.len());
}

/// An address behind `ssh` gives the `https` link to the host and the path, without the user
/// and without the port.
pub proof fn law_ssh_link(
    lead: Seq<char>,
    scheme: Seq<char>,
    slashes: Seq<char>,
    user: Seq<char>,
    host: Seq<char>,
    port: Seq<char>,
    path: Seq<char>,
)
    requires
        is_scheme(lead + scheme, lead, scheme),
        spells(scheme, "ssh"@),
        is_slashes(slashes),
        is_name(user),
        is_name(host),
        forall|i: int| 0 <= i < port.len() ==> '0' <= #[trigger] port[i] <= '9',
    ensures
        link_of(lead + scheme + seq![':'] + (slashes + (host + (seq!['/'] + path)))) == Some(
            "https://"@ + (host + seq!['/'] + path),
        ),
        link_of(
            lead + scheme + seq![':'] + (slashes + (user + seq!['@'] + (host + (seq!['/']
                + path)))),
        ) == Some("https://"@ + (host + seq!['/'] + path)),
        link_of(
            lead + scheme + seq![':'] + (slashes + (user + seq!['@'] + (host + (seq![':'] + port
                + seq!['/'] + path)))),
        ) == Some("https://"@ + host + "/"@ + path),
{
    lemma_words();
    assert forall|i: int| 0 <= i < "ssh"@.len() implies 'a' <= #[trigger] "ssh"@[i] <= 'z' by {}
    let name = lead + scheme;
    let slash = seq!['/'] + path;
    let plain = host + slash;
    let with_user = user + seq!['@'] + (host + slash);
    let ported = seq![':'] + port + seq!['/'] + path;
    let with_port = user + seq!['@'] + (host + ported);
    lemma_spells(scheme, "ssh"@);
    assert(scheme[0] == 's' || scheme[0] as u32 + 32 == 's' as u32);
    lemma_not_spelled(scheme, "file"@);
    lemma_scheme(name, lead, scheme, "ssh"@, slashes + plain);
    lemma_scheme(name, lead, scheme, "ssh"@, slashes + with_user);
    lemma_scheme(name, lead, scheme, "ssh"@, slashes + with_port);
    assert(plain[0] == host[0] && with_user[0] == user[0] && with_port[0] == user[0]);
    lemma_slashes(slashes, plain);
    lemma_slashes(slashes, with_user);
    lemma_slashes(slashes, with_port);
    assert(slash[0] == '/' && ported[0] == ':');
    lemma_no_user(host, slash);
    lemma_user(user, host, slash);
    let front = seq![':'] + port;
    assert(ported =~= front + (seq!['/'] + path));
    assert forall|i: int| 0 <= i < front.len() implies CharClass::Except('/').has(
        #[trigger] ported[i],
    ) && ported[i] != '@' by {
        if i > 0 {
            assert(ported[i] == port[i - 1]);
        }
    }
    assert(ported[front.len() as int] == '/');
    lemma_span_unique(ported, CharClass::Except('/'), front.len());
    lemma_user(user, host, ported);
    assert(plain =~= host + seq!['/'] + path);
    lemma_ssh_host(host, path);
    lemma_ssh_port(host, port, path);
}

/// A text that has a character which no word has spells no word.
proof fn lemma_odd(name: Seq<char>, i: int, word: Seq<char>)
    requires
        0 <= i < name.len(),
        name[i] == '@' || name[i] == '.',
        forall|k: int| 0 <= k < word.len() ==> 'a' <= #[trigger] word[k] <= 'z',
    ensures
        !any_case(name, word),
{
    if any_case(name, word) {
        lemma_spells(name, word);
        lemma_spelled(name, word);
        assert('a' <= name[i] <= 'z' || 'A' <= name[i] <= 'Z');
    }
}

/// A name with an at sign or a dot in it is no scheme and no short form.
proof fn lemma_no_word(name: Seq<char>, i: int)
    requires
        0 <= i < name.len(),
        name[i] == '@' || name[i] == '.',
    ensures
        !names_host(name),
        !any_case(name, "file"@),
        short_host(name) is None,
        !any_case(name, "ssh"@),
{
    lemma_words();
    lemma_odd(name, i, "https"@);
    lemma_odd(name, i, "http"@);
    lemma_odd(name, i, "git"@);
    lemma_odd(name, i, "ssh"@);
    lemma_odd(name, i, "file"@);
    lemma_odd(name, i, "github"@);
    lemma_odd(name, i, "gitlab"@);
    lemma_odd(name, i, "bitbucket"@);
    lemma_odd(name, i, "gist"@);
}

/// `user@host:path` and `host.name:path` give the `https` link to the path on the host. What
/// begins with a port keeps it.
#[verifier::rlimit(30)]
pub proof fn law_host_path_link(user: Seq<char>, host: Seq<char>, path: Seq<char>)
    requires
        is_name(user),
        is_name(host),
        is_solid(path),
        !"//"@.is_prefix_of(path),
    ensures
        !starts_with_port(path) ==> link_of(user + seq!['@'] + host + seq![':'] + path) == Some(
            "https://"@ + host + "/"@ + path,
        ),
        starts_with_port(path) && user + seq!['@'] + host != "git@github.com"@ ==> link_of(
            user + seq!['@'] + host + seq![':'] + path,
        ) == Some("https://"@ + host + ":"@ + path),
        host.contains('.') ==> link_of(host + seq![':'] + path) == Some(
            "https://"@ + host + (if starts_with_port(path) {
                ":"@
            } else {
                "/"@
            }) + path,
        ),
{
    let name = user + seq!['@'] + host;
    let none = Seq::<char>::empty();
    assert(name[user.len() as int] == '@');
    assert forall|i: int| 0 <= i < name.len() implies !is_space(#[trigger] name[i]) && name[i]
        != ':' && name[i] != '/' && name[i] != '+' by {
        if i < user.len() {
            assert(name[i] == user[i]);
        } else if i > user.len() {
            assert(name[i] == host[i - user.len() - 1]);
        }
    }
    lemma_plain_name(name, path);
    lemma_no_word(name, user.len() as int);
    assert(host + none =~= host);
    lemma_user(user, host, none);
    lemma_solid(name);
    lemma_solid(path);
    lemma_solid(host);
    if name == "git@github.com"@ {
        lemma_github(user, host, path);
    }
    if host.contains('.') {
        let i = choose|i: int| 0 <= i < host.len() && host[i] == '.';
        lemma_plain_name(host, path);
        lemma_no_word(host, i);
        lemma_no_user(host, none);
        if host == "git@github.com"@ {
            reveal_strlit("git@github.com");
            assert(host[3] == '@');
        }
    }
}

proof fn lemma_solid(s: Seq<char>)
    requires
        is_solid(s),
    ensures
        is_unbroken(s),
{
    assert forall|i: int| 0 <= i < s.len() implies CharClass::NotSpace.has(#[trigger] s[i]) by {}
    lemma_span_unique(s, CharClass::NotSpace, s.len());
}

proof fn lemma_github(user: Seq<char>, host: Seq<char>, path: Seq<char>)
    requires
        is_name(user),
        is_name(host),
        user + seq!['@'] + host == "git@github.com"@,
    ensures
        "https://github.com/"@ + path == "https://"@ + host + "/"@ + path,
{
    reveal_strlit("git@github.com");
    reveal_strlit("https://github.com/");
    reveal_strlit("https://");
    reveal_strlit("/");
    let all = "git@github.com"@;
    assert((user + seq!['@'] + host)[user.len() as int] == '@');
    if user.len() != 3 {
        if user.len() > 3 {
            assert((user + seq!['@'] + host)[3] == user[3]);
            assert(all[3] == '@');
        }
        assert(all[user.len() as int] == '@');
    }
    assert(host =~= all.skip(4)) by {
        assert((user + seq!['@'] + host).skip(4) =~= host);
    }
    assert("https://github.com/"@ =~= "https://"@ + host + "/"@);
}

/// `git@github.com:` stands for GitHub whatever follows, but for two slashes.
pub proof fn law_github_link(rest: Seq<char>)
    requires
        !"//"@.is_prefix_of(rest),
    ensures
        link_of("git@github.com"@ + seq![':'] + rest) == Some("https://github.com/"@ + rest),
{
    let name = "git@github.com"@;
    reveal_strlit("git@github.com");
    assert(name[3] == '@');
    assert forall|i: int| 0 <= i < name.len() implies #[trigger] name[i] != ':' && name[i] != '/'
        && name[i] != '+' by {}
    lemma_plain_name(name, rest);
    lemma_no_word(name, 3);
}

/// What an address without a scheme is read as: no colon stands before its first slash.
proof fn lemma_no_scheme(front: Seq<char>, rest: Seq<char>)
    requires
        lacks(front, ':'),
    ensures
        link_of(front + seq!['/'] + rest) == path_link(front + seq!['/'] + rest),
{
    let url = front + seq!['/'] + rest;
    match cut(url, ':') {
        Some((name, after)) => {
            lemma_cut_parts(url, ':');
            let n = front.len() as int;
            assert(url[n] == '/');
            assert(url[name.len() as int] == ':');
            if name.len() <= n {
                if name.len() < n {
                    assert(url[name.len() as int] == front[name.len() as int]);
                }
            }
            assert(name[n] == url[n]);
            assert(name.contains('/'));
        },
        None => {},
    }
}

/// Addresses without a scheme: what begins with two slashes gets `https:` before them,
/// `host.name/path` and `user@host/path` give the `https` link to the host, and `user/repo`
/// is a repository of GitHub.
pub proof fn law_path_link(front: Seq<char>, user: Seq<char>, path: Seq<char>)
    requires
        is_name(front),
        front[0] != '.',
        is_name(user),
        is_solid(path),
    ensures
        link_of("//"@ + path) == Some("https:"@ + ("//"@ + path)),
        front.contains('.') ==> link_of(front + seq!['/'] + path) == Some(
            "https://"@ + (front + seq!['/'] + path),
        ),
        link_of(user + seq!['@'] + (front + (seq!['/'] + path))) == Some(
            "https://"@ + (front + seq!['/'] + path),
        ),
        !front.contains('.') && path.len() > 0 && path[0] != '/' ==> link_of(
            front + seq!['/'] + path,
        ) == Some("https://github.com/"@ + (front + seq!['/'] + path)),
{
    let none = Seq::<char>::empty();
    let slash = seq!['/'] + path;
    let url = front + seq!['/'] + path;
    reveal_strlit("//");
    assert("//"@ + path =~= none + seq!['/'] + slash);
    lemma_no_scheme(none, slash);
    assert("//"@.is_prefix_of("//"@ + path));
    lemma_no_scheme(front, path);
    assert(url =~= front + slash);
    lemma_no_user(front, slash);
    lemma_cut_made(front, '/', path);
    assert(url[0] == front[0]);
    assert(!"//"@.is_prefix_of(url)) by {
        if "//"@.is_prefix_of(url) {
            assert("//"@ =~= url.subrange(0, 2));
            assert(url[0] == '/');
        }
    }
    assert forall|i: int| 0 <= i < url.len() implies !is_space(#[trigger] url[i]) by {
        if i < front.len() {
            assert(url[i] == front[i]);
        } else if i > front.len() {
            assert(url[i] == path[i - front.len() - 1]);
        }
    }
    lemma_solid(url);
    let long = user + seq!['@'] + (front + slash);
    let head = user + seq!['@'] + front;
    assert(long =~= head + seq!['/'] + path);
    assert forall|i: int| 0 <= i < head.len() implies #[trigger] head[i] != ':' && !is_space(
        head[i],
    ) by {
        if i < user.len() {
            assert(head[i] == user[i]);
        } else if i > user.len() {
            assert(head[i] == front[i - user.len() - 1]);
        }
    }
    lemma_no_scheme(head, path);
    lemma_user(user, front, slash);
    assert(long[0] == user[0]);
    assert(!"//"@.is_prefix_of(long)) by {
        if "//"@.is_prefix_of(long) {
            assert("//"@ =~= long.subrange(0, 2));
            assert(long[0] == '/');
        }
    }
    assert forall|i: int| 0 <= i < long.len() implies !is_space(#[trigger] long[i]) by {
        if i < head.len() {
            assert(long[i] == head[i]);
        } else if i > head.len() {
            assert(long[i] == path[i - head.len() - 1]);
        }
    }
    lemma_solid(long);
    assert(url[front.len() as int] == '/');
    assert(url.contains('/'));
}

/// What gives no link: a text with neither a colon nor a slash, one that begins with a dot
/// and has neither a colon nor an at sign, and one with white space in it and neither a
/// colon nor two slashes at its start.
pub proof fn law_no_link(url: Seq<char>)
    requires
        lacks(url, ':'),
    ensures
        lacks(url, '/') ==> link_of(url) is None,
        url.len() > 0 && url[0] == '.' && lacks(url, '@') ==> link_of(url) is None,
        !is_solid(url) && !"//"@.is_prefix_of(url) ==> link_of(url) is None,
{
    reveal_strlit("//");
    if cut(url, ':') is Some {
        lemma_cut_parts(url, ':');
        let (a, b) = cut(url, ':')->0;
        assert(url[a.len() as int] == ':');
    }
    if "//"@.is_prefix_of(url) {
        let two = url.subrange(0, 2);
        assert("//"@ =~= two);
        assert(two[0] == url[0] && two[1] == url[1]);
    }
    if !is_solid(url) {
        let i = choose|i: int| 0 <= i < url.len() && is_space(url[i]);
        lemma_span(url, CharClass::NotSpace);
        if is_unbroken(url) {
            assert(CharClass::NotSpace.has(url[i]));
        }
    }
    let address = without_user(url);
    lemma_span(url, CharClass::Except('/'));
    let authority = url.take(span(url, CharClass::Except('/')) as int);
    if cut(authority, '@') is Some {
        lemma_cut_parts(authority, '@');
        let (a, b) = cut(authority, '@')->0;
        assert(authority[a.len() as int] == '@');
        assert(url[a.len() as int] == '@');
        assert forall|i: int|
            0 <= i < address.len() && lacks(url, '/') implies #[trigger] address[i] != '/' by {
            if a.len() > 0 {
                assert(address[i] == url[a.len() + 1 + i]);
            }
        }
    }
    if cut(address, '/') is Some {
        lemma_cut_parts(address, '/');
        let (a, b) = cut(address, '/')->0;
        assert(address[a.len() as int] == '/');
        if a.len() > 0 {
            assert(address[0] == a[0]);
        }
    }
    if cut(url, '/') is Some {
        lemma_cut_parts(url, '/');
        let (a, b) = cut(url, '/')->0;
        assert(url[a.len() as int] == '/');
        if a.len() > 0 {
            assert(url[0] == a[0]);
        }
    }
}

/// `git+` before an address, `.git` behind it and blanks around it do not matter.
pub proof fn law_stripped(lead: Seq<char>, address: Seq<char>, tail: Seq<char>)
    requires
        is_blank(lead),
        is_blank(tail),
        is_tight(address),
        !"git+"@.is_prefix_of(address),
        !".git"@.is_suffix_of(address),
    ensures
        clickable(lead + address + tail) == link_of(address),
        clickable(lead + ("git+"@ + address) + tail) == link_of(address),
        clickable(lead + (address + ".git"@) + tail) == link_of(address),
        clickable(lead + ("git+"@ + (address + ".git"@)) + tail) == link_of(address),
{
    reveal_strlit("git+");
    reveal_strlit(".git");
    let suffixed = address + ".git"@;
    assert(suffixed[0] == address[0] && suffixed.last() == 't');
    assert(("git+"@ + address)[0] == 'g' && ("git+"@ + address).last() == address.last());
    assert(("git+"@ + suffixed)[0] == 'g' && ("git+"@ + suffixed).last() == 't');
    law_trim(lead, address, tail);
    law_trim(lead, "git+"@ + address, tail);
    law_trim(lead, suffixed, tail);
    law_trim(lead, "git+"@ + suffixed, tail);
    assert(!"git+"@.is_prefix_of(suffixed)) by {
        if "git+"@.is_prefix_of(suffixed) {
            let s = suffixed.subrange(0, 4);
            assert("git+"@ =~= s);
            if address.len() >= 4 {
                assert(address.subrange(0, 4) =~= s);
            } else {
                assert(s[address.len() as int] == suffixed[address.len() as int]);
                assert(suffixed[address.len() as int] == '.');
            }
        }
    }
    law_strip_prefixes(address, "git+"@);
    law_strip_prefixes(suffixed, "git+"@);
    law_strip_suffixes(address, ".git"@);
}

/// Whether a name is neither a scheme nor a short form.
pub open spec fn is_no_word(name: Seq<char>) -> bool {
    &&& !spells(name, "https"@) && !spells(name, "http"@) && !spells(name, "git"@)
    &&& !spells(name, "ssh"@) && !spells(name, "file"@)
    &&& !spells(name, "github"@) && !spells(name, "gitlab"@)
    &&& !spells(name, "bitbucket"@) && !spells(name, "gist"@)
}

/// Any other name before a colon is a host. A path behind it with white space in it gives no
/// link.
pub proof fn law_plain_host(host: Seq<char>, path: Seq<char>)
    requires
        is_name(host),
        is_no_word(host),
        !"//"@.is_prefix_of(path),
    ensures
        link_of(host + seq![':'] + path) == if !is_solid(path) {
            None
        } else if starts_with_port(path) {
            Some("https://"@ + host + ":"@ + path)
        } else {
            Some("https://"@ + host + "/"@ + path)
        },
{
    let none = Seq::<char>::empty();
    lemma_words();
    lemma_plain_name(host, path);
    lemma_spells(host, "https"@);
    lemma_spells(host, "http"@);
    lemma_spells(host, "git"@);
    lemma_spells(host, "ssh"@);
    lemma_spells(host, "file"@);
    lemma_spells(host, "github"@);
    lemma_spells(host, "gitlab"@);
    lemma_spells(host, "bitbucket"@);
    lemma_spells(host, "gist"@);
    lemma_no_user(host, none);
    assert(host + none =~= host);
    lemma_solid(host);
    if is_solid(path) {
        lemma_solid(path);
    } else {
        let i = choose|i: int| 0 <= i < path.len() && is_space(path[i]);
        lemma_span(path, CharClass::NotSpace);
        if is_unbroken(path) {
            assert(CharClass::NotSpace.has(path[i]));
        }
    }
    if host == "git@github.com"@ {
        reveal_strlit("git@github.com");
        assert(host[3] == '@');
    }
}

/// A port is digits with a slash behind them.
pub proof fn law_port(digits: Seq<char>, c: char, rest: Seq<char>)
    requires
        forall|i: int| 0 <= i < digits.len() ==> '0' <= #[trigger] digits[i] <= '9',
        !('0' <= c <= '9'),
    ensures
        starts_with_port(digits + seq![c] + rest) <==> digits.len() > 0 && c == '/',
        !starts_with_port(digits),
{
    let s = digits + seq![c] + rest;
    assert forall|i: int| 0 <= i < digits.len() implies CharClass::Digit.has(#[trigger] s[i]) by {
        assert(s[i] == digits[i]);
    }
    assert(s[digits.len() as int] == c);
    lemma_span_unique(s, CharClass::Digit, digits.len());
    lemma_span_unique(digits, CharClass::Digit, digits.len());
}

/// Behind `ssh`, a colon that no port follows parts the host from the path.
pub proof fn law_ssh_parted(
    lead: Seq<char>,
    scheme: Seq<char>,
    slashes: Seq<char>,
    user: Seq<char>,
    host: Seq<char>,
    first: Seq<char>,
    more: Seq<char>,
)
    requires
        is_scheme(lead + scheme, lead, scheme),
        spells(scheme, "ssh"@),
        is_slashes(slashes),
        is_name(user),
        is_name(host),
        is_name(first),
        exists|i: int| 0 <= i < first.len() && !('0' <= #[trigger] first[i] <= '9'),
    ensures
        link_of(
            lead + scheme + seq![':'] + (slashes + (user + seq!['@'] + (host + (seq![':'] + first
                + seq!['/'] + more)))),
        ) == Some("https://"@ + host + "/"@ + (first + seq!['/'] + more)),
{
    lemma_words();
    assert forall|i: int| 0 <= i < "ssh"@.len() implies 'a' <= #[trigger] "ssh"@[i] <= 'z' by {}
    let parted = seq![':'] + first + seq!['/'] + more;
    let address = host + parted;
    let whole = user + seq!['@'] + address;
    lemma_spells(scheme, "ssh"@);
    assert(scheme[0] == 's' || scheme[0] as u32 + 32 == 's' as u32);
    lemma_not_spelled(scheme, "file"@);
    lemma_scheme(lead + scheme, lead, scheme, "ssh"@, slashes + whole);
    assert(whole[0] == user[0]);
    lemma_slashes(slashes, whole);
    let front = seq![':'] + first;
    assert(parted =~= front + (seq!['/'] + more));
    assert forall|i: int| 0 <= i < front.len() implies CharClass::Except('/').has(
        #[trigger] parted[i],
    ) && parted[i] != '@' by {
        if i > 0 {
            assert(parted[i] == first[i - 1]);
        }
    }
    assert(parted[front.len() as int] == '/');
    lemma_span_unique(parted, CharClass::Except('/'), front.len());
    lemma_user(user, host, parted);
    lemma_parted(host, first, more);
}

proof fn lemma_parted(host: Seq<char>, first: Seq<char>, more: Seq<char>)
    requires
        is_name(host),
        is_name(first),
        exists|i: int| 0 <= i < first.len() && !('0' <= #[trigger] first[i] <= '9'),
    ensures
        ssh_link(host + (seq![':'] + first + seq!['/'] + more)) == "https://"@ + host + "/"@ + (
        first + seq!['/'] + more),
{
    let front = host + seq![':'] + first;
    let path = first + seq!['/'] + more;
    let address = host + (seq![':'] + first + seq!['/'] + more);
    assert(address =~= front + seq!['/'] + more);
    assert(address =~= host + seq![':'] + path);
    assert forall|i: int| 0 <= i < front.len() implies #[trigger] front[i] != '/' by {
        if i < host.len() {
            assert(front[i] == host[i]);
        } else if i > host.len() {
            assert(front[i] == first[i - host.len() - 1]);
        }
    }
    lemma_cut_made(front, '/', more);
    assert(lacks(host, ':'));
    lemma_cut_made(host, ':', first);
    lemma_cut_made(host, ':', path);
    lemma_span(first, CharClass::Digit);
    let i = choose|i: int| 0 <= i < first.len() && !('0' <= #[trigger] first[i] <= '9');
    if span(first, CharClass::Digit) == first.len() {
        assert(CharClass::Digit.has(first[i]));
    }
}

/// What begins with two slashes gets `https:` before them, whatever follows.
pub proof fn law_slashes_link(rest: Seq<char>)
    ensures
        link_of("//"@ + rest) == Some("https:"@ + ("//"@ + rest)),
{
    let none = Seq::<char>::empty();
    let slash = seq!['/'] + rest;
    reveal_strlit("//");
    assert("//"@ + rest =~= none + seq!['/'] + slash);
    lemma_no_scheme(none, slash);
    assert("//"@.is_prefix_of("//"@ + rest));
}

/// Taking `git+` away before an address leaves `.git` behind it.
proof fn lemma_strip_both(x: Seq<char>)
    ensures
        strip_prefixes(x + ".git"@, "git+"@) == strip_prefixes(x, "git+"@) + ".git"@,
    decreases x.len(),
{
    reveal_strlit("git+");
    reveal_strlit(".git");
    let s = x + ".git"@;
    if "git+"@.is_prefix_of(x) {
        let rest = x.skip(4);
        assert("git+"@ =~= x.subrange(0, 4));
        assert(s.subrange(0, 4) =~= "git+"@);
        assert(s.skip(4) =~= rest + ".git"@);
        lemma_strip_both(rest);
    } else {
        if "git+"@.is_prefix_of(s) {
            let front = s.subrange(0, 4);
            assert("git+"@ =~= front);
            if x.len() >= 4 {
                assert(x.subrange(0, 4) =~= front);
            } else {
                assert(front[x.len() as int] == s[x.len() as int]);
                assert(s[x.len() as int] == '.');
            }
        }
        law_strip_prefixes(s, "git+"@);
        law_strip_prefixes(x, "git+"@);
    }
}

/// However often `git+` stands before an address and `.git` behind it, the link is the same.
pub proof fn law_stripped_again(lead: Seq<char>, x: Seq<char>, tail: Seq<char>)
    requires
        is_blank(lead),
        is_blank(tail),
        is_tight(x),
    ensures
        clickable(lead + x + tail) == clickable(x),
        clickable(lead + ("git+"@ + x) + tail) == clickable(x),
        clickable(lead + (x + ".git"@) + tail) == clickable(x),
{
    let none = Seq::<char>::empty();
    reveal_strlit("git+");
    reveal_strlit(".git");
    let (before, behind) = ("git+"@ + x, x + ".git"@);
    assert(before[0] == 'g' && before.last() == x.last());
    assert(behind[0] == x[0] && behind.last() == 't');
    law_trim(lead, x, tail);
    law_trim(none, x, none);
    assert(none + x + none =~= x);
    law_trim(lead, before, tail);
    law_trim(lead, behind, tail);
    law_strip_prefixes(x, "git+"@);
    lemma_strip_both(x);
    law_strip_suffixes(strip_prefixes(x, "git+"@), ".git"@);
}

/// A user is what stands before an at sign, before the first slash. An address without one
/// stays as it is, and so does one that begins with an at sign.
pub proof fn law_user(user: Seq<char>, after: Seq<char>, front: Seq<char>, rest: Seq<char>)
    ensures
        user.len() > 0 && lacks(user, '@') && lacks(user, '/') ==> without_user(
            user + seq!['@'] + after,
        ) == after,
        without_user(seq!['@'] + after) == seq!['@'] + after,
        lacks(front, '@') && (rest.len() > 0 ==> rest[0] == '/') ==> without_user(front + rest)
            == front + rest,
{
    let class = CharClass::Except('/');
    let none = Seq::<char>::empty();
    if user.len() > 0 && lacks(user, '@') && lacks(user, '/') {
        let address = user + seq!['@'] + after;
        let k = span(address, class) as int;
        lemma_span(address, class);
        if k <= user.len() {
            assert(address[k] == if k < user.len() {
                user[k]
            } else {
                '@'
            });
        }
        let authority = address.take(k);
        let left = authority.skip(user.len() as int + 1);
        assert(authority =~= user + seq!['@'] + left);
        lemma_cut_made(user, '@', left);
        assert(address.skip(user.len() as int + 1) =~= after);
    }
    let odd = seq!['@'] + after;
    let k = span(odd, class) as int;
    lemma_span(odd, class);
    assert(odd[0] == '@');
    let authority = odd.take(k);
    let left = authority.skip(1);
    assert(authority =~= none + seq!['@'] + left);
    lemma_cut_made(none, '@', left);
    if lacks(front, '@') && (rest.len() > 0 ==> rest[0] == '/') {
        let address = front + rest;
        let n = span(address, class) as int;
        lemma_span(address, class);
        if n > front.len() {
            assert(class.has(address[front.len() as int]));
            assert(address[front.len() as int] == rest[0]);
        }
        let head = address.take(n);
        if cut(head, '@') is Some {
            lemma_cut_parts(head, '@');
            let (a, b) = cut(head, '@')->0;
            assert(head[a.len() as int] == '@');
            assert(head[a.len() as int] == front[a.len() as int]);
        }
    }
}

/// Any other name before a colon that two slashes do not follow is a host, with a user before
/// it or without. White space on either side, or no host, gives no link, but behind
/// `git@github.com` anything may stand.
pub proof fn law_colon_host(lead: Seq<char>, scheme: Seq<char>, rest: Seq<char>)
    requires
        is_scheme(lead + scheme, lead, scheme),
        lacks(scheme, '+') && lacks(scheme, ':') && lacks(scheme, '/'),
        is_no_word(scheme) || lead.len() > 0 && !spells(scheme, "https"@) && !spells(
            scheme,
            "http"@,
        ) && !spells(scheme, "git"@) && !spells(scheme, "ssh"@) && !spells(scheme, "file"@),
        !"//"@.is_prefix_of(rest),
    ensures
        ({
            let name = lead + scheme;
            let host = without_user(name);
            link_of(name + seq![':'] + rest) == if name == "git@github.com"@ {
                Some("https://github.com/"@ + rest)
            } else if host.len() == 0 || !is_solid(name) || !is_solid(rest) {
                None
            } else if starts_with_port(rest) {
                Some("https://"@ + host + ":"@ + rest)
            } else {
                Some("https://"@ + host + "/"@ + rest)
            }
        }),
{
    let name = lead + scheme;
    lemma_words();
    lemma_any_scheme(name, lead, scheme, rest);
    lemma_spells(scheme, "https"@);
    lemma_spells(scheme, "http"@);
    lemma_spells(scheme, "git"@);
    lemma_spells(scheme, "ssh"@);
    lemma_spells(scheme, "file"@);
    if lead.len() == 0 {
        assert(name =~= scheme);
        lemma_spells(name, "github"@);
        lemma_spells(name, "gitlab"@);
        lemma_spells(name, "bitbucket"@);
        lemma_spells(name, "gist"@);
    } else {
        let k = lead.len() - 1;
        assert(name[k] == '+');
        lemma_plus(name, k, "github"@);
        lemma_plus(name, k, "gitlab"@);
        lemma_plus(name, k, "bitbucket"@);
        lemma_plus(name, k, "gist"@);
    }
    lemma_solid_iff(name);
    lemma_solid_iff(rest);
}

/// A text with a plus sign spells no word.
proof fn lemma_plus(name: Seq<char>, k: int, word: Seq<char>)
    requires
        0 <= k < name.len(),
        name[k] == '+',
        forall|i: int| 0 <= i < word.len() ==> 'a' <= #[trigger] word[i] <= 'z',
    ensures
        !any_case(name, word),
{
    if any_case(name, word) {
        lemma_spells(name, word);
        lemma_spelled(name, word);
        assert('a' <= name[k] <= 'z' || 'A' <= name[k] <= 'Z');
    }
}

proof fn lemma_solid_iff(s: Seq<char>)
    ensures
        is_solid(s) == is_unbroken(s),
{
    if is_solid(s) {
        lemma_solid(s);
    } else {
        let i = choose|i: int| 0 <= i < s.len() && is_space(s[i]);
        lemma_span(s, CharClass::NotSpace);
        if is_unbroken(s) {
            assert(CharClass::NotSpace.has(s[i]));
        }
    }
}

/// An address behind `ssh` is read without its slashes and its user.
pub proof fn law_ssh_address(
    lead: Seq<char>,
    scheme: Seq<char>,
    slashes: Seq<char>,
    address: Seq<char>,
)
    requires
        is_scheme(lead + scheme, lead, scheme),
        spells(scheme, "ssh"@),
        is_slashes(slashes),
        address.len() > 0 ==> address[0] != '/',
    ensures
        link_of(lead + scheme + seq![':'] + (slashes + address)) == Some(
            ssh_link(without_user(address)),
        ),
{
    lemma_words();
    assert forall|i: int| 0 <= i < "ssh"@.len() implies 'a' <= #[trigger] "ssh"@[i] <= 'z' by {}
    lemma_spells(scheme, "ssh"@);
    assert(scheme[0] == 's' || scheme[0] as u32 + 32 == 's' as u32);
    lemma_not_spelled(scheme, "file"@);
    lemma_scheme(lead + scheme, lead, scheme, "ssh"@, slashes + address);
    lemma_slashes(slashes, address);
}

/// The forms of such an address: a host, with a path behind a slash, with a port before that
/// which is left out, or with a path behind a colon.
pub proof fn law_ssh_forms(host: Seq<char>, port: Seq<char>, path: Seq<char>)
    requires
        lacks(host, '/') && lacks(host, ':'),
        lacks(port, '/'),
    ensures
        ssh_link(host) == "https://"@ + host,
        ssh_link(host + seq!['/'] + path) == "https://"@ + (host + seq!['/'] + path),
        ssh_link(host + seq![':'] + port) == "https://"@ + host + "/"@ + port,
        ssh_link(host + seq![':'] + port + seq!['/'] + path) == if forall|i: int|
            0 <= i < port.len() ==> '0' <= #[trigger] port[i] <= '9' {
            "https://"@ + host + "/"@ + path
        } else {
            "https://"@ + host + "/"@ + (port + seq!['/'] + path)
        },
{
    let parted = host + seq![':'] + port;
    lemma_none(host, '/');
    lemma_none(host, ':');
    lemma_cut_made(host, '/', path);
    lemma_cut_made(host, ':', port);
    assert forall|i: int| 0 <= i < parted.len() implies #[trigger] parted[i] != '/' by {
        if i < host.len() {
            assert(parted[i] == host[i]);
        } else if i > host.len() {
            assert(parted[i] == port[i - host.len() - 1]);
        }
    }
    lemma_none(parted, '/');
    lemma_cut_made(parted, '/', path);
    let long = port + seq!['/'] + path;
    assert(parted + seq!['/'] + path =~= host + seq![':'] + long);
    lemma_cut_made(host, ':', long);
    lemma_span(port, CharClass::Digit);
    if forall|i: int| 0 <= i < port.len() ==> '0' <= #[trigger] port[i] <= '9' {
        lemma_span_unique(port, CharClass::Digit, port.len());
    } else {
        let i = choose|i: int| 0 <= i < port.len() && !('0' <= #[trigger] port[i] <= '9');
        if span(port, CharClass::Digit) == port.len() {
            assert(CharClass::Digit.has(port[i]));
        }
    }
}

proof fn lemma_none(s: Seq<char>, c: char)
    requires
        lacks(s, c),
    ensures
        cut(s, c) is None,
{
    if cut(s, c) is Some {
        lemma_cut_parts(s, c);
        let (a, b) = cut(s, c)->0;
        assert(s[a.len() as int] == c);
    }
}

/// The forms of an address with a slash and no colon before that, one by one.
pub proof fn law_path_forms(front: Seq<char>, rest: Seq<char>)
    requires
        lacks(front, ':') && lacks(front, '/'),
    ensures
        ({
            let url = front + seq!['/'] + rest;
            let address = without_user(url);
            link_of(url) == if front.len() == 0 && rest.len() > 0 && rest[0] == '/' {
                Some("https:"@ + url)
            } else if !is_solid(url) {
                None
            } else if address != url {
                Some("https://"@ + address)
            } else if front.len() == 0 || front[0] == '.' {
                None
            } else if !lacks(front, '.') {
                Some("https://"@ + url)
            } else if rest.len() > 0 && rest[0] != '/' {
                Some("https://github.com/"@ + url)
            } else {
                None
            }
        }),
{
    let url = front + seq!['/'] + rest;
    let address = without_user(url);
    lemma_no_scheme(front, rest);
    lemma_cut_made(front, '/', rest);
    reveal_strlit("//");
    assert("//"@.is_prefix_of(url) <==> front.len() == 0 && rest.len() > 0 && rest[0] == '/') by {
        if "//"@.is_prefix_of(url) {
            let two = url.subrange(0, 2);
            assert("//"@ =~= two);
            assert(two[0] == url[0] && two[1] == url[1]);
            if front.len() > 0 {
                assert(url[0] == front[0]);
            } else {
                assert(url[1] == rest[0]);
            }
        }
        if front.len() == 0 && rest.len() > 0 && rest[0] == '/' {
            assert("//"@ =~= url.subrange(0, 2));
        }
    }
    lemma_solid_iff(url);
    assert(url[front.len() as int] == '/');
    lemma_user_kept(front, rest);
    if address == url {
        assert(front.contains('.') <==> !lacks(front, '.')) by {
            if !lacks(front, '.') {
                let i = choose|i: int| 0 <= i < front.len() && front[i] == '.';
                assert(front[i] == '.');
            }
        }
    }
}

/// Taking a user away leaves the slash.
proof fn lemma_user_kept(front: Seq<char>, rest: Seq<char>)
    requires
        lacks(front, '/'),
    ensures
        ({
            let url = front + seq!['/'] + rest;
            let address = without_user(url);
            &&& address.contains('/')
            &&& address.len() <= url.len()
            &&& address.len() == url.len() ==> address == url
        }),
{
    let url = front + seq!['/'] + rest;
    let class = CharClass::Except('/');
    assert forall|i: int| 0 <= i < front.len() implies class.has(#[trigger] url[i]) by {
        assert(url[i] == front[i]);
    }
    assert(url[front.len() as int] == '/');
    lemma_span_unique(url, class, front.len());
    let authority = url.take(front.len() as int);
    let address = without_user(url);
    match cut(authority, '@') {
        Some((user, _)) => {
            lemma_cut_parts(authority, '@');
            if user.len() > 0 {
                assert(address[front.len() - user.len() - 1] == '/');
            } else {
                assert(url.contains('/'));
            }
        },
        None => {
            assert(url.contains('/'));
        },
    }
}

} // verus!

//! Which lines of a `pnpm-workspace.yaml` are listed.
use crate::catalogs::{
    catalog_deps, catalog_scan, catalog_step, key_of, yaml_entry, CatalogScan, Mode,
};
use crate::listing::{catalog_context, lemma_catalog_grows, lemma_catalog_row};
use crate::manifest::{indent_of, DependencyView};
use crate::text::{
    byte_len, is_space, lemma_byte_len_char, lemma_byte_len_concat, lemma_span, lemma_span_unique,
    lines, span, trim_start, CharClass,
};
use crate::text_laws::{is_blank, law_blank};
use crate::yaml_laws::{
    law_yaml_key, law_yaml_line, law_yaml_no_entry, sound_key, sound_line, written, yaml_line,
    Quotable,
};
use vstd::prelude::*;

verus! {

/// Whether a line is blank, or a comment: its first character that is no blank is a `#`.
pub open spec fn is_skipped(line: Seq<char>) -> bool {
    is_blank(line) || exists|k: int|
        0 <= k < line.len() && line[k] == '#' && is_blank(#[trigger] line.take(k))
}

/// Whether a line begins at the left margin, and is no comment.
pub open spec fn at_margin(line: Seq<char>) -> bool {
    line.len() > 0 && !is_space(line[0]) && line[0] != '#'
}

/// Whether a line is the head of a catalog: it has a key and no value.
pub open spec fn is_header(line: Seq<char>) -> bool {
    !is_skipped(line) && yaml_entry(line) is None && key_of(trim_start(line)) is Some
}

proof fn lemma_skipped(line: Seq<char>)
    ensures
        is_skipped(line) <==> trim_start(line).len() == 0 || trim_start(line)[0] == '#',
{
    let body = trim_start(line);
    lemma_span(line, CharClass::Space);
    let n = span(line, CharClass::Space) as int;
    law_blank(line);
    if body.len() > 0 && body[0] == '#' {
        let lead = line.take(n);
        assert forall|i: int| 0 <= i < lead.len() implies is_space(#[trigger] lead[i]) by {
            assert(CharClass::Space.has(line[i]));
        }
        assert(line[n] == body[0]);
    }
    if is_skipped(line) && !is_blank(line) {
        let k = choose|k: int|
            0 <= k < line.len() && line[k] == '#' && is_blank(#[trigger] line.take(k));
        assert forall|i: int| 0 <= i < k implies CharClass::Space.has(#[trigger] line[i]) by {
            assert(is_space(line.take(k)[i]));
        }
        lemma_span_unique(line, CharClass::Space, k as nat);
        assert(body[0] == line[k]);
    }
}

proof fn lemma_byte_len_zero(s: Seq<char>)
    ensures
        byte_len(s) == 0 <==> s.len() == 0,
{
    if s.len() > 0 {
        lemma_byte_len_concat(seq![s[0]], s.drop_first());
        lemma_byte_len_char(s[0]);
        assert(s =~= seq![s[0]] + s.drop_first());
    } else {
        assert(s =~= Seq::<char>::empty());
    }
}

/// A line that is no comment and not blank begins at the margin or behind blanks.
proof fn lemma_margin(line: Seq<char>)
    ensures
        at_margin(line) ==> !is_skipped(line) && trim_start(line) == line,
        !is_skipped(line) ==> (indent_of(line) == 0 <==> at_margin(line)),
{
    lemma_skipped(line);
    lemma_span(line, CharClass::Space);
    let n = span(line, CharClass::Space) as int;
    let lead = line.take(line.len() - trim_start(line).len());
    assert(lead =~= line.take(n));
    lemma_byte_len_zero(lead);
    if at_margin(line) {
        assert(n == 0);
        assert(line.skip(0) =~= line);
    }
    if !is_skipped(line) && n == 0 {
        assert(line.skip(0) =~= line);
    }
    if n > 0 {
        assert(is_space(line[0]));
    }
}

/// What is listed of each dependency: its context, its name and its version text.
pub open spec fn triples(deps: Seq<DependencyView>) -> Seq<(Seq<char>, Seq<char>, Seq<char>)> {
    Seq::new(deps.len(), |i: int| (deps[i].context, deps[i].name, deps[i].spec))
}

/// Whether two scans differ at most in the rows of what they found.
spec fn alike(s: CatalogScan, t: CatalogScan) -> bool {
    s.mode == t.mode && s.catalog == t.catalog && triples(s.deps) == triples(t.deps)
}

proof fn lemma_step_alike(s: CatalogScan, t: CatalogScan, line: Seq<char>, m: nat, n: nat)
    requires
        alike(s, t),
    ensures
        alike(catalog_step(s, line, m), catalog_step(t, line, n)),
{
    let (u, v) = (catalog_step(s, line, m), catalog_step(t, line, n));
    assert(triples(s.deps).len() == triples(t.deps).len());
    assert forall|i: int| 0 <= i < s.deps.len() implies s.deps[i].context == (
    #[trigger] t.deps[i]).context && s.deps[i].name == t.deps[i].name && s.deps[i].spec
        == t.deps[i].spec by {
        assert(triples(s.deps)[i] == triples(t.deps)[i]);
    }
    assert(triples(u.deps) =~= triples(v.deps));
}

/// Blank lines and comments do not matter: what is listed is the same without them.
pub proof fn law_comment_lines(a: Seq<Seq<char>>, c: Seq<char>, b: Seq<Seq<char>>)
    requires
        is_skipped(c),
    ensures
        triples(catalog_scan(a + seq![c] + b).deps) == triples(catalog_scan(a + b).deps),
{
    lemma_comment_lines(a, c, b);
}

proof fn lemma_comment_lines(a: Seq<Seq<char>>, c: Seq<char>, b: Seq<Seq<char>>)
    requires
        is_skipped(c),
    ensures
        alike(catalog_scan(a + seq![c] + b), catalog_scan(a + b)),
    decreases b.len(),
{
    let (x, y) = (a + seq![c] + b, a + b);
    if b.len() == 0 {
        assert(y =~= a);
        assert(x.drop_last() =~= a);
        assert(x.last() == c);
        lemma_skipped(c);
        assert(catalog_scan(x) == catalog_scan(a));
    } else {
        let rest = b.drop_last();
        assert(x.drop_last() =~= a + seq![c] + rest);
        assert(y.drop_last() =~= a + rest);
        assert(x.last() == b.last() && y.last() == b.last());
        lemma_comment_lines(a, c, rest);
        lemma_step_alike(
            catalog_scan(x.drop_last()),
            catalog_scan(y.drop_last()),
            b.last(),
            (x.len() - 1) as nat,
            (y.len() - 1) as nat,
        );
    }
}

/// One more line is one more step.
proof fn lemma_prefix(all: Seq<Seq<char>>, t: int)
    requires
        0 <= t < all.len(),
    ensures
        catalog_scan(all.take(t + 1)) == catalog_step(catalog_scan(all.take(t)), all[t], t as nat),
{
    let upto = all.take(t + 1);
    assert(upto.drop_last() =~= all.take(t));
    assert(upto.last() == all[t]);
}

/// Lines behind blanks do not leave a part of the file.
proof fn lemma_mode_stays(all: Seq<Seq<char>>, from: int, to: int)
    requires
        0 <= from <= to <= all.len(),
        forall|t: int| from <= t < to ==> !at_margin(#[trigger] all[t]),
    ensures
        catalog_scan(all.take(to)).mode == catalog_scan(all.take(from)).mode,
    decreases to - from,
{
    if from < to {
        lemma_prefix(all, from);
        lemma_skipped(all[from]);
        lemma_margin(all[from]);
        lemma_mode_stays(all, from + 1, to);
    }
}

/// Lines behind blanks that are no heads do not leave a catalog.
proof fn lemma_catalog_stays(all: Seq<Seq<char>>, from: int, to: int)
    requires
        0 <= from <= to <= all.len(),
        forall|t: int|
            from <= t < to ==> !at_margin(#[trigger] all[t]) && !is_header(all[t]),
    ensures
        catalog_scan(all.take(to)).mode == catalog_scan(all.take(from)).mode,
        catalog_scan(all.take(to)).catalog == catalog_scan(all.take(from)).catalog,
    decreases to - from,
{
    if from < to {
        lemma_prefix(all, from);
        lemma_skipped(all[from]);
        lemma_margin(all[from]);
        lemma_catalog_stays(all, from + 1, to);
    }
}

/// A key at the left margin opens the part of the file that it names.
proof fn lemma_opens(all: Seq<Seq<char>>, top: int, key: Seq<char>)
    requires
        0 <= top < all.len(),
        at_margin(all[top]),
        key_of(all[top]) == Some(key),
        key == "catalog"@ || key == "catalogs"@,
    ensures
        catalog_scan(all.take(top + 1)).mode == if key == "catalog"@ {
            Mode::DefaultCatalog
        } else {
            Mode::NamedCatalogs
        },
{
    reveal_strlit("catalog");
    reveal_strlit("catalogs");
    assert("catalog"@.len() != "catalogs"@.len());
    lemma_prefix(all, top);
    lemma_margin(all[top]);
    lemma_skipped(all[top]);
}

/// A written key that names a part of the file stands at the margin.
proof fn lemma_margin_key(line: Seq<char>, k: Quotable, rest: Seq<char>)
    requires
        line == written(k) + seq![':'] + rest,
        sound_key(k),
        k.text == "catalog"@ || k.text == "catalogs"@,
    ensures
        at_margin(line),
        key_of(line) == Some(k.text),
{
    reveal_strlit("catalog");
    reveal_strlit("catalogs");
    law_yaml_key(k, rest);
    match k.quote {
        Some(q) => {
            assert(line[0] == q);
        },
        None => {
            assert(line[0] == k.text[0]);
            assert(k.text[0] == 'c');
        },
    }
}

/// A line `key: value` behind blanks in a catalog is listed.
proof fn lemma_entry_listed(all: Seq<Seq<char>>, row: int, context: Seq<char>) -> (i: int)
    requires
        0 <= row < all.len(),
        catalog_context(catalog_scan(all.take(row))) == Some(context),
        !at_margin(all[row]),
        !is_skipped(all[row]),
        yaml_entry(all[row]) is Some,
    ensures
        0 <= i < catalog_scan(all).deps.len(),
        catalog_scan(all).deps[i].context == context,
        catalog_scan(all).deps[i].name == yaml_entry(all[row])->0.name,
        catalog_scan(all).deps[i].spec == yaml_entry(all[row])->0.spec,
        catalog_scan(all).deps[i].row == row as u32,
{
    lemma_prefix(all, row);
    lemma_skipped(all[row]);
    lemma_margin(all[row]);
    let i = catalog_scan(all.take(row)).deps.len() as int;
    assert(catalog_scan(all.take(row + 1)).deps.len() == i + 1);
    lemma_catalog_grows(all, row + 1);
    assert(catalog_scan(all).deps.take(i + 1)[i] == catalog_scan(all).deps[i]);
    i
}

/// A head behind blanks among the named catalogs opens one.
proof fn lemma_head(all: Seq<Seq<char>>, head: int)
    requires
        0 <= head < all.len(),
        catalog_scan(all.take(head)).mode == Mode::NamedCatalogs,
        !at_margin(all[head]),
        is_header(all[head]),
    ensures
        catalog_scan(all.take(head + 1)).mode == Mode::NamedCatalogs,
        catalog_scan(all.take(head + 1)).catalog == key_of(trim_start(all[head])),
{
    lemma_prefix(all, head);
    lemma_margin(all[head]);
    lemma_skipped(all[head]);
}

/// Every entry of the default catalog is listed: a line that holds an entry, behind blanks,
/// below a line at the left margin with the key `catalog`, with no other line at the margin
/// between them.
pub proof fn law_default_entry(text: Seq<char>, top: int, row: int) -> (i: int)
    requires
        0 <= top < row < lines(text).len(),
        at_margin(lines(text)[top]),
        key_of(lines(text)[top]) == Some("catalog"@),
        forall|n: int| top < n <= row ==> !at_margin(#[trigger] lines(text)[n]),
        !is_skipped(lines(text)[row]),
        yaml_entry(lines(text)[row]) is Some,
    ensures
        0 <= i < catalog_deps(text).len(),
        catalog_deps(text)[i].context == "catalog"@,
        catalog_deps(text)[i].name == yaml_entry(lines(text)[row])->0.name,
        catalog_deps(text)[i].spec == yaml_entry(lines(text)[row])->0.spec,
        catalog_deps(text)[i].row == row as u32,
{
    let all = lines(text);
    lemma_opens(all, top, "catalog"@);
    lemma_mode_stays(all, top + 1, row);
    lemma_entry_listed(all, row, "catalog"@)
}

/// Every entry of a named catalog is listed: a line that holds an entry, behind blanks, below
/// the head of the catalog, with no other head and no line at the left margin between them,
/// where the head stands behind blanks below a line at the margin with the key `catalogs`,
/// with no other line at the margin between them.
pub proof fn law_named_entry(text: Seq<char>, top: int, head: int, row: int) -> (i: int)
    requires
        0 <= top < head < row < lines(text).len(),
        at_margin(lines(text)[top]),
        key_of(lines(text)[top]) == Some("catalogs"@),
        forall|n: int| top < n <= row ==> !at_margin(#[trigger] lines(text)[n]),
        is_header(lines(text)[head]),
        forall|n: int| head < n < row ==> !is_header(#[trigger] lines(text)[n]),
        !is_skipped(lines(text)[row]),
        yaml_entry(lines(text)[row]) is Some,
    ensures
        0 <= i < catalog_deps(text).len(),
        catalog_deps(text)[i].context == "catalogs."@ + key_of(trim_start(lines(text)[head]))->0,
        catalog_deps(text)[i].name == yaml_entry(lines(text)[row])->0.name,
        catalog_deps(text)[i].spec == yaml_entry(lines(text)[row])->0.spec,
        catalog_deps(text)[i].row == row as u32,
{
    let all = lines(text);
    reveal_strlit("catalog");
    reveal_strlit("catalogs");
    assert("catalog"@.len() != "catalogs"@.len());
    lemma_opens(all, top, "catalogs"@);
    lemma_mode_stays(all, top + 1, head);
    lemma_head(all, head);
    lemma_catalog_stays(all, head + 1, row);
    lemma_entry_listed(all, row, "catalogs."@ + key_of(trim_start(all[head]))->0)
}

/// A line with a key that does not begin with a `#` is not skipped.
proof fn lemma_no_comment(lead: Seq<char>, body: Seq<char>, k: Quotable, rest: Seq<char>)
    requires
        is_blank(lead),
        body == written(k) + seq![':'] + rest,
        sound_key(k),
        k.text.len() > 0 && k.quote is None ==> k.text[0] != '#',
    ensures
        trim_start(lead + body) == body,
        !is_skipped(lead + body),
{
    let line = lead + body;
    match k.quote {
        Some(q) => {
            assert(body[0] == q);
        },
        None => {
            if k.text.len() > 0 {
                assert(body[0] == k.text[0]);
            } else {
                assert(body[0] == ':');
            }
        },
    }
    assert forall|i: int| 0 <= i < lead.len() implies CharClass::Space.has(#[trigger] line[i]) by {
        assert(line[i] == lead[i]);
    }
    assert(line[lead.len() as int] == body[0]);
    lemma_span_unique(line, CharClass::Space, lead.len());
    assert(trim_start(line) =~= body);
    lemma_skipped(line);
}

/// The listing of the default catalog is complete: every line `key: value` behind blanks is
/// listed under `catalog` that follows a key `catalog` at the left margin, with no other
/// line at the margin between them.
pub proof fn law_default_listed(
    text: Seq<char>,
    top: int,
    row: int,
    t: Quotable,
    after: Seq<char>,
    lead: Seq<char>,
    k: Quotable,
    pad: Seq<char>,
    v: Quotable,
) -> (i: int)
    requires
        0 <= top < row < lines(text).len(),
        lines(text)[top] == written(t) + seq![':'] + after,
        sound_key(t),
        t.text == "catalog"@,
        forall|n: int| top < n < row ==> !at_margin(#[trigger] lines(text)[n]),
        lines(text)[row] == yaml_line(lead, k, pad, v),
        sound_line(lead, k, pad, v),
        lead.len() > 0,
    ensures
        0 <= i < catalog_deps(text).len(),
        catalog_deps(text)[i].context == "catalog"@,
        catalog_deps(text)[i].name == k.text,
        catalog_deps(text)[i].spec == v.text,
        catalog_deps(text)[i].row == row as u32,
{
    let all = lines(text);
    lemma_margin_key(all[top], t, after);
    lemma_entry_line(lead, k, pad, v);
    law_default_entry(text, top, row)
}

/// Whether nothing but blanks or a comment follow a colon.
pub open spec fn no_value(after: Seq<char>) -> bool {
    is_blank(after) || exists|pad: Seq<char>, x: Seq<char>|
        is_blank(pad) && pad.len() > 0 && after == #[trigger] comment_only(pad, x)
}

/// Blanks, and a comment behind them.
pub open spec fn comment_only(pad: Seq<char>, x: Seq<char>) -> Seq<char> {
    pad + (seq!['#'] + x)
}

/// A key without a value behind blanks is the head of a catalog.
proof fn lemma_head_line(lead: Seq<char>, h: Quotable, after: Seq<char>)
    requires
        is_blank(lead),
        lead.len() > 0,
        sound_key(h),
        h.text.len() > 0 && h.quote is None ==> h.text[0] != '#',
        no_value(after),
    ensures
        ({
            let line = lead + (written(h) + seq![':'] + after);
            &&& is_header(line)
            &&& !at_margin(line)
            &&& key_of(trim_start(line)) == Some(h.text)
        }),
{
    let body = written(h) + seq![':'] + after;
    let line = lead + body;
    lemma_no_comment(lead, body, h, after);
    law_yaml_key(h, after);
    assert(line[0] == lead[0]);
    let none = Seq::<char>::empty();
    if is_blank(after) {
        law_yaml_no_entry(lead, h, after, none, '"');
    } else {
        let (pad, x) = choose|pad: Seq<char>, x: Seq<char>|
            is_blank(pad) && pad.len() > 0 && after == #[trigger] comment_only(pad, x);
        law_yaml_no_entry(lead, h, pad, x, '"');
    }
}

/// A line `key: value` behind blanks holds an entry.
proof fn lemma_entry_line(lead: Seq<char>, k: Quotable, pad: Seq<char>, v: Quotable)
    requires
        sound_line(lead, k, pad, v),
        lead.len() > 0,
    ensures
        ({
            let line = yaml_line(lead, k, pad, v);
            &&& !is_skipped(line)
            &&& !at_margin(line)
            &&& yaml_entry(line) is Some
            &&& yaml_entry(line)->0.name == k.text
            &&& yaml_entry(line)->0.spec == v.text
        }),
{
    let line = yaml_line(lead, k, pad, v);
    law_yaml_line(lead, k, pad, v);
    assert(line[0] == lead[0]);
    let body = written(k) + seq![':'] + (pad + written(v));
    lemma_no_comment(lead, body, k, pad + written(v));
}

/// The listing of the named catalogs is complete: every line `key: value` behind blanks is
/// listed under `catalogs.` and the name of its catalog that follows the head of that
/// catalog, with neither another head nor a line at the left margin between them, where the
/// head follows a key `catalogs` at the left margin in the same way.
pub proof fn law_named_listed(
    text: Seq<char>,
    top: int,
    head: int,
    row: int,
    t: Quotable,
    after_top: Seq<char>,
    lead_head: Seq<char>,
    h: Quotable,
    after_head: Seq<char>,
    lead: Seq<char>,
    k: Quotable,
    pad: Seq<char>,
    v: Quotable,
) -> (i: int)
    requires
        0 <= top < head < row < lines(text).len(),
        lines(text)[top] == written(t) + seq![':'] + after_top,
        sound_key(t),
        t.text == "catalogs"@,
        forall|n: int| top < n < head ==> !at_margin(#[trigger] lines(text)[n]),
        lines(text)[head] == lead_head + (written(h) + seq![':'] + after_head),
        is_blank(lead_head),
        lead_head.len() > 0,
        sound_key(h),
        h.text.len() > 0 && h.quote is None ==> h.text[0] != '#',
        no_value(after_head),
        forall|n: int|
            head < n < row ==> !at_margin(#[trigger] lines(text)[n]) && !is_header(lines(text)[n]),
        lines(text)[row] == yaml_line(lead, k, pad, v),
        sound_line(lead, k, pad, v),
        lead.len() > 0,
    ensures
        0 <= i < catalog_deps(text).len(),
        catalog_deps(text)[i].context == "catalogs."@ + h.text,
        catalog_deps(text)[i].name == k.text,
        catalog_deps(text)[i].spec == v.text,
        catalog_deps(text)[i].row == row as u32,
{
    let all = lines(text);
    lemma_margin_key(all[top], t, after_top);
    lemma_head_line(lead_head, h, after_head);
    lemma_entry_line(lead, k, pad, v);
    law_named_entry(text, top, head, row)
}

/// The line that opened the part of the file that the next line lies in.
proof fn lemma_mode_from(all: Seq<Seq<char>>) -> (top: int)
    requires
        catalog_scan(all).mode != Mode::Outside,
    ensures
        0 <= top < all.len(),
        at_margin(all[top]),
        key_of(all[top]) == Some(
            if catalog_scan(all).mode == Mode::DefaultCatalog {
                "catalog"@
            } else {
                "catalogs"@
            },
        ),
        forall|t: int| top < t < all.len() ==> !at_margin(#[trigger] all[t]),
    decreases all.len(),
{
    let line = all.last();
    let rest = all.drop_last();
    lemma_skipped(line);
    lemma_margin(line);
    if at_margin(line) {
        all.len() - 1
    } else {
        let top = lemma_mode_from(rest);
        assert(rest[top] == all[top]);
        assert forall|t: int| top < t < all.len() implies !at_margin(#[trigger] all[t]) by {
            if t < rest.len() {
                assert(rest[t] == all[t]);
            }
        }
        top
    }
}

/// The head of the catalog that the next line lies in.
proof fn lemma_catalog_from(all: Seq<Seq<char>>) -> (head: int)
    requires
        catalog_scan(all).catalog is Some,
    ensures
        0 <= head < all.len(),
        is_header(all[head]),
        key_of(trim_start(all[head])) == catalog_scan(all).catalog,
        forall|t: int| head <= t < all.len() ==> !at_margin(#[trigger] all[t]),
        forall|t: int| head < t < all.len() ==> !is_header(#[trigger] all[t]),
    decreases all.len(),
{
    let line = all.last();
    let rest = all.drop_last();
    let st = catalog_scan(rest);
    lemma_skipped(line);
    lemma_margin(line);
    if is_header(line) && st.mode == Mode::NamedCatalogs {
        all.len() - 1
    } else {
        let head = lemma_catalog_from(rest);
        assert(rest[head] == all[head]);
        lemma_named(rest);
        assert forall|t: int| head <= t < all.len() implies !at_margin(#[trigger] all[t]) by {
            if t < rest.len() {
                assert(rest[t] == all[t]);
            }
        }
        assert forall|t: int| head < t < all.len() implies !is_header(#[trigger] all[t]) by {
            if t < rest.len() {
                assert(rest[t] == all[t]);
            }
        }
        head
    }
}

/// A catalog has a name among the named ones alone.
proof fn lemma_named(all: Seq<Seq<char>>)
    requires
        catalog_scan(all).catalog is Some,
    ensures
        catalog_scan(all).mode == Mode::NamedCatalogs,
    decreases all.len(),
{
    let rest = all.drop_last();
    if catalog_scan(rest).catalog is Some {
        lemma_named(rest);
    }
}

/// Nothing else is listed. What is listed under `catalog` stands behind blanks below a key
/// `catalog` at the left margin; what is listed otherwise stands below the head of a
/// catalog, which gives the context, below a key `catalogs` at the left margin. No other
/// line at the margin and no other head stands between.
pub proof fn law_only_catalogs(text: Seq<char>, i: int) -> (r: (int, int, int))
    requires
        0 <= i < catalog_deps(text).len(),
    ensures
        ({
            let all = lines(text);
            let dep = catalog_deps(text)[i];
            let (top, head, row) = r;
            &&& 0 <= top < row < all.len()
            &&& at_margin(all[top])
            &&& forall|t: int| top < t <= row ==> !at_margin(#[trigger] all[t])
            &&& !is_skipped(all[row])
            &&& yaml_entry(all[row]) is Some
            &&& dep.name == yaml_entry(all[row])->0.name
            &&& dep.spec == yaml_entry(all[row])->0.spec
            &&& dep.row == row as u32
            &&& {
                ||| dep.context == "catalog"@ && key_of(all[top]) == Some("catalog"@)
                ||| {
                    &&& top < head < row
                    &&& key_of(all[top]) == Some("catalogs"@)
                    &&& is_header(all[head])
                    &&& forall|t: int| head < t < row ==> !is_header(#[trigger] all[t])
                    &&& dep.context == "catalogs."@ + key_of(trim_start(all[head]))->0
                }
            }
        }),
{
    let all = lines(text);
    let dep = catalog_deps(text)[i];
    let row = lemma_catalog_row(all, i);
    let upto = all.take(row);
    let st = catalog_scan(upto);
    lemma_skipped(all[row]);
    lemma_margin(all[row]);
    let top = lemma_mode_from(upto);
    assert(upto[top] == all[top]);
    assert forall|t: int| top < t <= row implies !at_margin(#[trigger] all[t]) by {
        if t < row {
            assert(upto[t] == all[t]);
        }
    }
    if st.mode == Mode::DefaultCatalog {
        (top, top, row)
    } else {
        let head = lemma_catalog_from(upto);
        assert(upto[head] == all[head]);
        if head < top {
            assert(!at_margin(upto[top]));
        }
        assert forall|t: int| head < t < row implies !is_header(#[trigger] all[t]) by {
            assert(upto[t] == all[t]);
        }
        (top, head, row)
    }
}

} // verus!

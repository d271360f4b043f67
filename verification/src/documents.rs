//! What a package document tells, field by field.
use crate::json::{holds, law_field, law_field_text, JsonView};
use crate::links::clickable;
use crate::registry::{
    answered, capped, described, law_readme_cap, license_id, repository_link, says, Response,
};
use crate::text::{byte_len, is_space};
use crate::text_laws::law_blank;
use crate::version::{semver_version, VersionView};
use vstd::prelude::*;

verus! {

/// Whether a field of a document is a text, or an object with that text under
/// another key.
pub open spec fn tells(
    document: JsonView,
    key: Seq<char>,
    inner: Seq<char>,
    text: Seq<char>,
) -> bool {
    ||| holds(document, key, JsonView::Text(text))
    ||| exists|value: JsonView| #[trigger]
        holds(document, key, value) && !(value is Text) && holds(value, inner, JsonView::Text(text))
}

/// Whether a text has a character that is no white space.
pub open spec fn is_written(text: Seq<char>) -> bool {
    exists|i: int| 0 <= i < text.len() && !is_space(#[trigger] text[i])
}

/// The description and the homepage are the texts under these keys, and nothing where
/// there are none.
pub proof fn law_plain_fields(document: JsonView, text: Seq<char>)
    ensures
        described(document).description == Some(text) <==> holds(
            document,
            "description"@,
            JsonView::Text(text),
        ),
        described(document).homepage == Some(text) <==> holds(
            document,
            "homepage"@,
            JsonView::Text(text),
        ),
{
    law_field_text(document, "description"@, text);
    law_field_text(document, "homepage"@, text);
}

/// The license is the text under `license`, or the `type` of the object there.
pub proof fn law_license(document: JsonView, text: Seq<char>)
    ensures
        described(document).license == Some(text) <==> tells(document, "license"@, "type"@, text),
{
    lemma_tells(document, "license"@, "type"@, text);
}

/// What a field says, as it is looked up.
spec fn told(document: JsonView, key: Seq<char>, inner: Seq<char>) -> Option<Seq<char>> {
    match document.get(key) {
        Some(JsonView::Text(text)) => Some(text),
        Some(value) => value.get_text(inner),
        None => None,
    }
}

proof fn lemma_tells(document: JsonView, key: Seq<char>, inner: Seq<char>, text: Seq<char>)
    ensures
        told(document, key, inner) == Some(text) <==> tells(document, key, inner, text),
{
    law_field(document, key, JsonView::Text(text));
    match document.get(key) {
        Some(value) => {
            law_field(document, key, value);
            law_field_text(value, inner, text);
        },
        None => {},
    }
    if exists|value: JsonView| #[trigger]
        holds(document, key, value) && !(value is Text) && holds(
            value,
            inner,
            JsonView::Text(text),
        ) {
        let value = choose|value: JsonView| #[trigger]
            holds(document, key, value) && !(value is Text) && holds(
                value,
                inner,
                JsonView::Text(text),
            );
        law_field(document, key, value);
    }
}

/// The repository is the clickable form of the address under `repository`, or of the
/// `url` of the object there. There is one exactly where that address has such a form.
pub proof fn law_repository(document: JsonView, link: Seq<char>)
    ensures
        described(document).repository == Some(link) <==> exists|raw: Seq<char>| #[trigger]
            tells(document, "repository"@, "url"@, raw) && clickable(raw) == Some(link),
{
    let raw = told(document, "repository"@, "url"@);
    if raw is Some {
        lemma_tells(document, "repository"@, "url"@, raw->0);
    }
    if exists|raw: Seq<char>| #[trigger]
        tells(document, "repository"@, "url"@, raw) && clickable(raw) == Some(link) {
        let raw = choose|raw: Seq<char>| #[trigger]
            tells(document, "repository"@, "url"@, raw) && clickable(raw) == Some(link);
        lemma_tells(document, "repository"@, "url"@, raw);
    }
}

/// The latest version is the one that the `latest` tag reads as.
pub proof fn law_latest_tag(document: JsonView, v: VersionView)
    ensures
        described(document).latest == Some(v) <==> exists|tags: JsonView, text: Seq<char>|
            {
                &&& #[trigger] holds(document, "dist-tags"@, tags)
                &&& #[trigger] holds(tags, "latest"@, JsonView::Text(text))
                &&& semver_version(text) == Some(v)
            },
{
    match document.get("dist-tags"@) {
        Some(tags) => {
            law_field(document, "dist-tags"@, tags);
            match tags.get_text("latest"@) {
                Some(text) => {
                    law_field_text(tags, "latest"@, text);
                },
                None => {},
            }
        },
        None => {},
    }
    if exists|tags: JsonView, text: Seq<char>|
        {
            &&& #[trigger] holds(document, "dist-tags"@, tags)
            &&& #[trigger] holds(tags, "latest"@, JsonView::Text(text))
            &&& semver_version(text) == Some(v)
        } {
        let (tags, text) = choose|tags: JsonView, text: Seq<char>|
            {
                &&& #[trigger] holds(document, "dist-tags"@, tags)
                &&& #[trigger] holds(tags, "latest"@, JsonView::Text(text))
                &&& semver_version(text) == Some(v)
            };
        law_field(document, "dist-tags"@, tags);
        law_field_text(tags, "latest"@, text);
    }
}

/// A README of at most 24000 bytes is shown as it is. It is left out exactly where it is
/// blank, or is what the registry puts where there is none; a longer one is shown up to
/// the last character that fits, with an ellipsis in a paragraph of its own.
pub proof fn law_readme(document: JsonView, readme: Seq<char>)
    requires
        holds(document, "readme"@, JsonView::Text(readme)),
    ensures
        described(document).readme is None <==> !is_written(readme) || readme
            == "ERROR: No README data found!"@,
        described(document).readme matches Some(shown) ==> {
            ||| byte_len(readme) <= 24_000 && shown == readme
            ||| exists|k: int|
                {
                    &&& 0 <= k < readme.len()
                    &&& shown == #[trigger] readme.take(k) + "\n\n…"@
                    &&& byte_len(readme) > 24_000
                    &&& byte_len(readme.take(k)) <= 24_000
                    &&& byte_len(readme.take(k + 1)) > 24_000
                }
        },
{
    law_field_text(document, "readme"@, readme);
    law_blank(readme);
    law_readme_cap(readme);
    if byte_len(readme) > 24_000 {
        let kept = capped(readme).take(capped(readme).len() - "\n\n…"@.len());
        assert(capped(readme) == readme.take(kept.len() as int) + "\n\n…"@);
    }
}

/// Without a text under `readme` there is no README.
pub proof fn law_no_readme(document: JsonView)
    requires
        forall|text: Seq<char>| !#[trigger] holds(document, "readme"@, JsonView::Text(text)),
    ensures
        described(document).readme is None,
{
    match document.get_text("readme"@) {
        Some(text) => {
            law_field_text(document, "readme"@, text);
        },
        None => {},
    }
}

/// What an answer says is the document in its body, exactly where it tells success and the
/// body is JSON.
pub proof fn law_answered(response: Option<Response>, document: JsonView)
    ensures
        answered(response) == Some(document) <==> says(response, document),
{
}

/// Whether a value is a text, or an object with that text under a key.
pub open spec fn is_told(value: JsonView, inner: Seq<char>, text: Seq<char>) -> bool {
    value == JsonView::Text(text) || (!(value is Text) && holds(value, inner, JsonView::Text(text)))
}

/// A `repository` field gives the clickable form of the text that it is or has under `url`,
/// and a `license` field the text that it is or has under `type`.
pub proof fn law_field_forms(value: JsonView, text: Seq<char>)
    ensures
        license_id(value) == Some(text) <==> is_told(value, "type"@, text),
        repository_link(value) == Some(text) <==> exists|raw: Seq<char>| #[trigger]
            is_told(value, "url"@, raw) && clickable(raw) == Some(text),
        value.text() == Some(text) <==> value == JsonView::Text(text),
{
    law_field_text(value, "type"@, text);
    match value {
        JsonView::Text(raw) => {
            assert(is_told(value, "url"@, raw));
            assert forall|other: Seq<char>| #[trigger] is_told(value, "url"@, other) implies other
                == raw by {}
        },
        _ => {
            match value.get_text("url"@) {
                Some(raw) => {
                    law_field_text(value, "url"@, raw);
                    assert(is_told(value, "url"@, raw));
                },
                None => {},
            }
            assert forall|other: Seq<char>| #[trigger] is_told(value, "url"@, other) implies
                value.get_text("url"@) == Some(other) by {
                law_field_text(value, "url"@, other);
            }
        },
    }
}

} // verus!

//! Classifying fetched resources and reading links out of HTML: HTML vs.
//! other from the `Content-Type` header, link and image extraction with
//! fragment stripping and base-URL resolution, and the file-extension label
//! derived from a URL.
use crate::text::{contains_seq, cut_at_first, after_last, has_char, str_contains,
    cut_at_first_exec, after_last_exec, string_eq};
use vstd::prelude::*;

verus! {

/// What a fetched resource turned out to be.
#[derive(Debug, PartialEq, Eq, Structural)]
pub enum FileType {
    Html,
    Other,
}

/// The `Content-Type` header as the engine sees it: absent, present but not
/// decodable as a string, or its decoded value.
#[derive(Debug)]
pub enum ContentType {
    Absent,
    Undecodable,
    Value(String),
}

/// A resource is HTML exactly when its decoded `Content-Type` value contains
/// the literal `text/html`.
pub open spec fn is_html_content(ct: ContentType) -> bool {
    match ct {
        ContentType::Value(s) => contains_seq(s@, "text/html"@),
        _ => false,
    }
}

/// Classifies a resource from its `Content-Type` header: `Html` exactly when
/// the header is present, decodable, and its value contains the literal
/// `text/html`; `Other` otherwise, an absent or undecodable header degrading
/// gracefully.
pub fn process_headers(content_type: &ContentType) -> (r: FileType)
    ensures
        r == (if is_html_content(*content_type) {
            FileType::Html
        } else {
            FileType::Other
        }),
{
    match content_type {
        ContentType::Value(s) => {
            if str_contains(s.as_str(), "text/html") {
                FileType::Html
            } else {
                FileType::Other
            }
        },
        _ => FileType::Other,
    }
}

/// Classified content of a fetched resource: HTML text with its outbound
/// link and image URL sets, or raw bytes with a file-extension label.
#[derive(Debug)]
pub enum FileContent {
    Html(String, Vec<String>, Vec<String>),
    Other(String, Vec<u8>),
}

/// What select's `Document::find` and `Node::attr` yield: the values of the
/// `attr` attribute of every `tag` element of the document parsed from
/// `html`, in document order; a function of the three strings alone.
pub uninterp spec fn attr_values_of(html: Seq<char>, tag: Seq<char>, attr: Seq<char>) -> Seq<
    Seq<char>,
>;

/// Relies on `select::document::Document::from` (an html5ever parse of the
/// string) and `select::node::Node::attr`: collects the `attr` attribute of
/// each `tag` element, in document order. The parse copies the document
/// into a tendril, which holds at most `u32::MAX` bytes and panics beyond
/// that, so the precondition keeps the input under the cap.
#[verifier::external_body]
fn extract_attr_values(html: &str, tag: &str, attr: &str) -> (r: Vec<String>)
    requires
        vstd::utf8::encode_utf8(html@).len() <= u32::MAX,
    ensures
        r.deep_view() == attr_values_of(html@, tag@, attr@),
{
    let document = select::document::Document::from(html);
    let mut values = Vec::new();
    for node in document.find(select::predicate::Name(tag)) {
        if let Some(value) = node.attr(attr) {
            values.push(value.to_owned());
        }
    }
    values
}

/// What `url::Url::parse` on `base`, `url::Url::join` with `rel`, and the
/// joined URL's serialization produce: the resolved absolute URL string, or
/// `None` where parsing or joining fails; a function of the two strings
/// alone.
pub uninterp spec fn join_of(base: Seq<char>, rel: Seq<char>) -> Option<Seq<char>>;

/// Relies on `url::Url::parse` and `url::Url::join`: deterministic WHATWG
/// URL resolution of `rel` against `base`.
#[verifier::external_body]
fn join_url(base: &str, rel: &str) -> (r: Option<String>)
    ensures
        r.deep_view() == join_of(base@, rel@),
{
    match url::Url::parse(base) {
        Ok(b) => match b.join(rel) {
            Ok(u) => Some(String::from(u.as_str())),
            Err(_) => None,
        },
        Err(_) => None,
    }
}

/// The URLs obtained by resolving each raw attribute value against `base`,
/// in order, dropping values that fail resolution. When `strip_fragment` is
/// set, anything from the first `#` on is removed before resolving.
pub open spec fn resolve_links(base: Seq<char>, raw: Seq<Seq<char>>, strip_fragment: bool) -> Seq<
    Seq<char>,
>
    decreases raw.len(),
{
    if raw.len() == 0 {
        Seq::empty()
    } else {
        let rest = resolve_links(base, raw.drop_last(), strip_fragment);
        let rel = if strip_fragment {
            cut_at_first(raw.last(), '#')
        } else {
            raw.last()
        };
        match join_of(base, rel) {
            Some(u) => rest.push(u),
            None => rest,
        }
    }
}

/// `s` with repeats removed, keeping each element at its first occurrence.
pub open spec fn dedup_first(s: Seq<Seq<char>>) -> Seq<Seq<char>>
    decreases s.len(),
{
    if s.len() == 0 {
        Seq::empty()
    } else {
        let rest = dedup_first(s.drop_last());
        if s.drop_last().contains(s.last()) {
            rest
        } else {
            rest.push(s.last())
        }
    }
}

proof fn lemma_contains_push(s: Seq<Seq<char>>, v: Seq<char>, x: Seq<char>)
    ensures
        s.push(v).contains(x) <==> (s.contains(x) || x == v),
{
    if s.push(v).contains(x) {
        let w = choose|w: int| 0 <= w < s.push(v).len() && s.push(v)[w] == x;
        if w < s.len() {
            assert(s[w] == x);
        }
    }
    if s.contains(x) {
        let w = choose|w: int| 0 <= w < s.len() && s[w] == x;
        assert(s.push(v)[w] == x);
    }
    if x == v {
        assert(s.push(v)[s.len() as int] == x);
    }
}

proof fn lemma_dedup_contains(s: Seq<Seq<char>>, x: Seq<char>)
    ensures
        dedup_first(s).contains(x) <==> s.contains(x),
    decreases s.len(),
{
    if s.len() == 0 {
    } else {
        let t = s.drop_last();
        lemma_dedup_contains(t, x);
        assert(s.contains(x) <==> (t.contains(x) || s.last() == x)) by {
            if s.contains(x) {
                let w = choose|w: int| 0 <= w < s.len() && s[w] == x;
                if w < t.len() {
                    assert(t[w] == x);
                }
            }
            if t.contains(x) {
                let w = choose|w: int| 0 <= w < t.len() && t[w] == x;
                assert(s[w] == x);
            }
            if s.last() == x {
                assert(s[s.len() - 1] == x);
            }
        }
        if t.contains(s.last()) {
            if s.last() == x {
                assert(dedup_first(s).contains(x));
            }
        } else {
            lemma_contains_push(dedup_first(t), s.last(), x);
        }
    }
}

/// Appends `s` to `acc` unless an equal string is already there.
fn push_if_new(acc: &mut Vec<String>, s: String)
    ensures
        final(acc).deep_view() == if old(acc).deep_view().contains(s@) {
            old(acc).deep_view()
        } else {
            old(acc).deep_view().push(s@)
        },
{
    let n: usize = acc.len();
    let mut i: usize = 0;
    while i < n
        invariant
            n == acc@.len(),
            i <= n,
            *acc == *old(acc),
            forall|k: int| 0 <= k < i ==> acc.deep_view()[k] != s@,
        decreases n - i,
    {
        if string_eq(&acc[i], &s) {
            proof {
                assert(acc.deep_view()[i as int] == s@);
                assert(acc.deep_view().contains(s@));
            }
            return ;
        }
        i += 1;
    }
    proof {
        if acc.deep_view().contains(s@) {
            let w = choose|w: int| 0 <= w < acc.deep_view().len() && acc.deep_view()[w] == s@;
            assert(false);
        }
    }
    acc.push(s);
    proof {
        assert(acc.deep_view() =~= old(acc).deep_view().push(s@));
    }
}

/// Reads the outbound links of an HTML document: every `<a href>` with its
/// fragment stripped and every `<img src>` as written, each resolved against
/// `base_url`, unresolvable entries dropped, and each set deduplicated in
/// first-seen order. Returns the text back together with the two sets. The
/// document must fit the HTML parser's buffer, which holds at most
/// `u32::MAX` bytes.
pub fn links_from_html(base_url: &str, text: String) -> (r: (String, Vec<String>, Vec<String>))
    requires
        vstd::utf8::encode_utf8(text@).len() <= u32::MAX,
    ensures
        r.0@ == text@,
        r.1.deep_view() == dedup_first(
            resolve_links(base_url@, attr_values_of(text@, "a"@, "href"@), true),
        ),
        r.2.deep_view() == dedup_first(
            resolve_links(base_url@, attr_values_of(text@, "img"@, "src"@), false),
        ),
{
    let hrefs = collect_links(base_url, text.as_str(), "a", "href", true);
    let imgs = collect_links(base_url, text.as_str(), "img", "src", false);
    (text, hrefs, imgs)
}

fn collect_links(base_url: &str, text: &str, tag: &str, attr: &str, strip_fragment: bool) -> (r:
    Vec<String>)
    requires
        vstd::utf8::encode_utf8(text@).len() <= u32::MAX,
    ensures
        r.deep_view() == dedup_first(
            resolve_links(base_url@, attr_values_of(text@, tag@, attr@), strip_fragment),
        ),
{
    let raw = extract_attr_values(text, tag, attr);
    let ghost raw_seq = raw.deep_view();
    let mut out: Vec<String> = Vec::new();
    let n: usize = raw.len();
    let mut i: usize = 0;
    proof {
        assert(raw_seq.subrange(0, 0) =~= Seq::<Seq<char>>::empty());
    }
    while i < n
        invariant
            n == raw@.len(),
            i <= n,
            raw_seq == raw.deep_view(),
            raw_seq == attr_values_of(text@, tag@, attr@),
            out.deep_view() == dedup_first(
                resolve_links(base_url@, raw_seq.subrange(0, i as int), strip_fragment),
            ),
        decreases n - i,
    {
        let ghost pre = raw_seq.subrange(0, i as int);
        let ghost cur = raw_seq.subrange(0, i + 1);
        proof {
            assert(cur.drop_last() =~= pre);
            assert(cur.last() == raw_seq[i as int]);
        }
        let joined: Option<String> = if strip_fragment {
            let stripped = cut_at_first_exec(raw[i].as_str(), '#');
            join_url(base_url, stripped.as_str())
        } else {
            join_url(base_url, raw[i].as_str())
        };
        let ghost resolved_pre = resolve_links(base_url@, pre, strip_fragment);
        let ghost resolved_cur = resolve_links(base_url@, cur, strip_fragment);
        match joined {
            Some(u) => {
                let ghost uv = u@;
                proof {
                    assert(resolved_cur == resolved_pre.push(uv));
                    lemma_dedup_contains(resolved_pre, uv);
                    assert(out.deep_view().contains(uv) <==> resolved_pre.contains(uv));
                }
                push_if_new(&mut out, u);
                proof {
                    let pushed = resolved_pre.push(uv);
                    assert(pushed.drop_last() =~= resolved_pre);
                    assert(pushed.last() == uv);
                    assert(out.deep_view() =~= dedup_first(resolved_cur));
                }
            },
            None => {
                proof {
                    assert(resolved_cur == resolved_pre);
                }
            },
        }
        i += 1;
    }
    proof {
        assert(raw_seq.subrange(0, n as int) =~= raw_seq);
    }
    out
}

/// The URL with anything from the first `#` on removed.
pub fn clean_url(url: &str) -> (r: String)
    ensures
        r@ == cut_at_first(url@, '#'),
{
    cut_at_first_exec(url, '#')
}

/// The extension label for `u`: drop any query or fragment, take the last
/// path component, and keep what follows its final dot — the whole component
/// when it has no dot — behind a leading dot.
pub open spec fn spec_extension(u: Seq<char>) -> Seq<char> {
    let trimmed = cut_at_first(cut_at_first(u, '#'), '?');
    let component = after_last(trimmed, '/');
    let ext = if has_char(component, '.') {
        after_last(component, '.')
    } else {
        component
    };
    seq!['.'] + ext
}

/// Derives the best-effort file-extension label of a URL, used to name the
/// file a non-HTML resource is saved under.
pub fn derive_extension(url: &str) -> (r: String)
    ensures
        r@ == spec_extension(url@),
{
    let no_fragment = cut_at_first_exec(url, '#');
    let trimmed = cut_at_first_exec(no_fragment.as_str(), '?');
    let component = after_last_exec(trimmed.as_str(), '/');
    let has_dot = match crate::text::find_first(component.as_str(), '.') {
        Some(_) => true,
        None => false,
    };
    proof {
        if has_dot {
            assert(has_char(component@, '.'));
        } else {
            if has_char(component@, '.') {
                let w = choose|w: int| 0 <= w < component@.len() && component@[w] == '.';
                assert(false);
            }
        }
    }
    let ext = if has_dot {
        after_last_exec(component.as_str(), '.')
    } else {
        component
    };
    let mut out = String::new();
    out.append(".");
    out.append(ext.as_str());
    proof {
        reveal_strlit(".");
        assert(out@ =~= spec_extension(url@));
    }
    out
}

} // verus!

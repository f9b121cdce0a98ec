//! An SVG document as the XML reader sees it: one token per event, with the text it was read
//! from, and the attributes of a tag on demand.
//!
//! The reading and the writing are done by `quick-xml`; this module holds what it hands back as
//! plain values.

use vstd::prelude::*;

use crate::text::starts_with;

use quick_xml::events::attributes::Attribute;
use quick_xml::events::{BytesEnd, BytesStart, Event};
use quick_xml::name::QName;
use quick_xml::reader::Reader;
use quick_xml::writer::Writer;

verus! {

/// What an event of the reader is.
#[derive(Clone, Copy, Debug, PartialEq, Eq, Structural)]
pub enum TokenKind {
    /// A start tag, `<g>`.
    Open,
    /// An empty-element tag, `<path/>`.
    Empty,
    /// An end tag, `</g>`.
    Close,
    /// Anything else: text, a comment, a declaration.
    Other,
}

/// One event of the reader.
pub struct Token {
    pub kind: TokenKind,
    /// The text of the source the event was read from.
    pub raw: String,
    /// The qualified name of a tag, `svg:path`; empty for other events.
    pub name: String,
    /// What a tag holds between its delimiters: the name and the attributes.
    pub content: String,
}

/// A token as plain values.
pub struct TokenView {
    pub kind: TokenKind,
    pub raw: Seq<char>,
    pub name: Seq<char>,
    pub content: Seq<char>,
}

impl View for Token {
    type V = TokenView;

    open spec fn view(&self) -> TokenView {
        TokenView {
            kind: self.kind,
            raw: self.raw@,
            name: self.name@,
            content: self.content@,
        }
    }
}

/// The tokens as plain values.
pub open spec fn tokens_view(v: Seq<Token>) -> Seq<TokenView> {
    v.map_values(|t: Token| t@)
}

/// Whether a token is a tag that opens an element, with or without content.
pub open spec fn is_tag(t: TokenView) -> bool {
    t.kind == TokenKind::Open || t.kind == TokenKind::Empty
}

/// One attribute of a tag.
pub struct Attr {
    /// The qualified name.
    pub key: String,
    /// The value as written in the source, entities and all.
    pub raw: String,
    /// The value after XML normalization, `None` when it holds an unknown entity.
    pub value: Option<String>,
}

/// An attribute as plain values.
pub struct AttrView {
    pub key: Seq<char>,
    pub raw: Seq<char>,
    pub value: Option<Seq<char>>,
}

impl View for Attr {
    type V = AttrView;

    open spec fn view(&self) -> AttrView {
        AttrView {
            key: self.key@,
            raw: self.raw@,
            value: match self.value {
                Some(v) => Some(v@),
                None => None,
            },
        }
    }
}

/// The attributes as plain values; `None` stands for one the reader could not read.
pub open spec fn attrs_view(v: Seq<Option<Attr>>) -> Seq<Option<AttrView>> {
    v.map_values(
        |a: Option<Attr>|
            match a {
                Some(a) => Some(a@),
                None => None,
            },
    )
}

/// Why a document could not be read.
#[derive(Debug)]
pub struct XmlError {
    pub message: String,
}

/// The events `quick_xml::reader::Reader::read_event` reads from `src` before `Event::Eof` or its
/// first error, each as its kind, the text it was read from and its content; and whether the reader
/// reported an error.
pub uninterp spec fn xml_events(src: Seq<char>) -> (Seq<(TokenKind, Seq<char>, Seq<char>)>, bool);

/// Whether `src` starts with a byte-order mark, U+FEFF.
pub open spec fn has_bom(src: Seq<char>) -> bool {
    src.len() > 0 && src[0] == '\u{feff}'
}

/// `src` without its byte-order mark: the mark says how the text is encoded, and is no part of
/// the document.
pub open spec fn bom_free(src: Seq<char>) -> Seq<char> {
    if has_bom(src) {
        src.skip(1)
    } else {
        src
    }
}

/// Whether `c` is what the reader takes for white space in a tag.
pub open spec fn xml_space(c: char) -> bool {
    c == ' ' || c == '\r' || c == '\n' || c == '\t'
}

/// The index of the first white space in `s` from `i` on, or the length.
pub open spec fn name_end(s: Seq<char>, i: int) -> int
    decreases s.len() - i,
{
    if i < 0 || i >= s.len() || xml_space(s[i]) {
        i
    } else {
        name_end(s, i + 1)
    }
}

/// The qualified name of a tag: the first word of a start tag's content (as
/// `quick_xml::utils::name_len` finds it), the whole content of an end tag, and nothing for any
/// other event.
pub open spec fn tag_name(kind: TokenKind, content: Seq<char>) -> Seq<char> {
    if kind == TokenKind::Open || kind == TokenKind::Empty {
        content.take(name_end(content, 0))
    } else if kind == TokenKind::Close {
        content
    } else {
        Seq::empty()
    }
}

/// An event as a token.
pub open spec fn token_view(e: (TokenKind, Seq<char>, Seq<char>)) -> TokenView {
    TokenView { kind: e.0, raw: e.1, name: tag_name(e.0, e.2), content: e.2 }
}

/// The tokens the reader reads from `src`, its byte-order mark aside, before the end or its first
/// error, and whether there was an error. A second mark right after the first is refused: the
/// reader would take it for the first, and lose count of where its events stand.
pub open spec fn xml_read(src: Seq<char>) -> (Seq<TokenView>, bool) {
    let doc = bom_free(src);
    if has_bom(doc) {
        (Seq::empty(), true)
    } else {
        (
            xml_events(doc).0.map_values(|e: (TokenKind, Seq<char>, Seq<char>)| token_view(e)),
            xml_events(doc).1,
        )
    }
}

/// Whether the content of a token starts with its name, as the content of a tag does.
pub open spec fn named(t: TokenView) -> bool {
    starts_with(t.content, t.name)
}

proof fn lemma_name_end(s: Seq<char>, i: int)
    requires
        0 <= i <= s.len(),
    ensures
        i <= name_end(s, i) <= s.len(),
    decreases s.len() - i,
{
    if i < s.len() && !xml_space(s[i]) {
        lemma_name_end(s, i + 1);
    }
}

/// Every token the reader reads from `src` is [`named`].
pub proof fn lemma_token_named(src: Seq<char>, k: int)
    requires
        0 <= k < xml_read(src).0.len(),
    ensures
        named(xml_read(src).0[k]),
{
    let doc = bom_free(src);
    if !has_bom(doc) {
        let e = xml_events(doc).0[k];
        assert(xml_read(src).0[k] == token_view(e));
        lemma_name_end(e.2, 0);
        assert(e.2.subrange(0, tag_name(e.0, e.2).len() as int) =~= tag_name(e.0, e.2));
    }
}

/// Every token of a sequence the reader read from `src` is [`named`].
pub proof fn lemma_tokens_named(src: Seq<char>, ts: Seq<Token>)
    requires
        xml_read(src).0 == tokens_view(ts),
    ensures
        forall|k: int| 0 <= k < ts.len() ==> #[trigger] named(ts[k]@),
{
    assert forall|k: int| 0 <= k < ts.len() implies #[trigger] named(ts[k]@) by {
        lemma_token_named(src, k);
        assert(tokens_view(ts)[k] == ts[k]@);
    }
}

/// The events of `src` up to the end, or `None` when the reader reports an error first.
pub open spec fn xml_tokens(src: Seq<char>) -> Option<Seq<TokenView>> {
    if xml_read(src).1 {
        None
    } else {
        Some(xml_read(src).0)
    }
}

/// `quick_xml::reader::Reader::read_event`, from `Reader::from_str(src)` until `Event::Eof` or an
/// error: the kind of each event, the text of `src` between `buffer_position` before and after it,
/// and what a tag holds between its delimiters; then the error's message, if there was one.
///
/// Claimed: the events and whether an error ends them are a function of `src` alone. What the
/// reader makes of a given text, and when it refuses one, is not stated. The text must not start
/// with a byte-order mark: the reader skips one without counting it in its positions.
#[verifier::external_body]
fn events(src: &str) -> (r: (Vec<(TokenKind, String, String)>, Option<String>))
    requires
        !has_bom(src@),
    ensures
        xml_events(src@) == (r.0@.map_values(|e: (TokenKind, String, String)| (e.0, e.1@, e.2@)), r.1 is Some),
{
    let mut reader = Reader::from_str(src);
    let mut out = Vec::new();
    loop {
        let at = reader.buffer_position() as usize;
        let event = match reader.read_event() { Ok(v) => v, Err(e) => return (out, Some(e.to_string())) };
        let (kind, content) = match &event {
            Event::Eof => return (out, None),
            Event::Start(e) => (TokenKind::Open, &**e),
            Event::Empty(e) => (TokenKind::Empty, &**e),
            Event::End(e) => (TokenKind::Close, &**e),
            _ => (TokenKind::Other, ""),
        };
        out.push((kind, src[at..reader.buffer_position() as usize].to_string(), content.to_string()));
    }
}

/// The qualified name of a tag with the given kind and content.
fn name_of(kind: TokenKind, content: &str) -> (r: String)
    ensures
        r@ == tag_name(kind, content@),
{
    if kind == TokenKind::Close {
        return content.to_owned();
    }
    if kind == TokenKind::Other {
        return String::new();
    }
    let x = crate::text::chars_of(content);
    let mut v: Vec<char> = Vec::new();
    let mut i: usize = 0;
    while i < x.len() && !(x[i] == ' ' || x[i] == '\r' || x[i] == '\n' || x[i] == '\t')
        invariant
            x@ == content@,
            i <= x.len(),
            v@ == content@.take(i as int),
            name_end(content@, i as int) == name_end(content@, 0),
        decreases x.len() - i,
    {
        v.push(x[i]);
        assert(content@.take(i + 1) =~= content@.take(i as int).push(x@[i as int]));
        i += 1;
    }
    crate::text::string_of(&v)
}

/// Whether `s` starts with a byte-order mark.
fn starts_with_bom(s: &str) -> (r: bool)
    ensures
        r == has_bom(s@),
{
    let x = crate::text::chars_of(s);
    x.len() > 0 && x[0] == '\u{feff}'
}

/// `src` without its byte-order mark.
///
/// The reader drops a leading mark itself but goes on counting its positions from after it, so
/// the text it reports would be cut three bytes short; the mark is taken off before reading.
pub fn without_bom(src: &str) -> (r: String)
    ensures
        r@ == bom_free(src@),
{
    let x = crate::text::chars_of(src);
    if x.len() > 0 && x[0] == '\u{feff}' {
        let rest = crate::text::slice_of(&x, 1, x.len());
        assert(rest@ =~= src@.skip(1));
        crate::text::string_of(&rest)
    } else {
        src.to_owned()
    }
}

/// The tokens the reader reads from `src` before the end or its first error, and that error.
pub fn read_tokens(src: &str) -> (r: (Vec<Token>, Option<XmlError>))
    ensures
        xml_read(src@) == (tokens_view(r.0@), r.1 is Some),
{
    let doc = without_bom(src);
    if starts_with_bom(doc.as_str()) {
        let none: Vec<Token> = Vec::new();
        assert(tokens_view(none@) =~= Seq::<TokenView>::empty());
        return (none, Some(XmlError { message: "a second byte-order mark".to_owned() }));
    }
    let (evs, err) = events(doc.as_str());
    let ghost ev = evs@.map_values(|e: (TokenKind, String, String)| (e.0, e.1@, e.2@));
    let mut out: Vec<Token> = Vec::new();
    let mut i: usize = 0;
    while i < evs.len()
        invariant
            ev == evs@.map_values(|e: (TokenKind, String, String)| (e.0, e.1@, e.2@)),
            i <= evs.len(),
            tokens_view(out@) == ev.take(i as int).map_values(
                |e: (TokenKind, Seq<char>, Seq<char>)| token_view(e),
            ),
        decreases evs.len() - i,
    {
        let (kind, raw, content) = &evs[i];
        let name = name_of(*kind, content.as_str());
        let ghost before = tokens_view(out@);
        out.push(Token { kind: *kind, raw: raw.clone(), name, content: content.clone() });
        assert(ev.take(i + 1) =~= ev.take(i as int).push(ev[i as int]));
        assert(tokens_view(out@) =~= before.push(token_view(ev[i as int])));
        assert(tokens_view(out@) =~= ev.take(i + 1).map_values(
            |e: (TokenKind, Seq<char>, Seq<char>)| token_view(e),
        ));
        i += 1;
    }
    assert(ev.take(evs.len() as int) =~= ev);
    let e = match err {
        Some(m) => Some(XmlError { message: m }),
        None => None,
    };
    (out, e)
}

/// The events of `src` up to the end, or the error that the reader reports first.
pub fn lex(src: &str) -> (r: Result<Vec<Token>, XmlError>)
    ensures
        match r {
            Ok(v) => xml_tokens(src@) == Some(tokens_view(v@)),
            Err(_) => xml_tokens(src@) is None,
        },
{
    let (ts, err) = read_tokens(src);
    match err {
        Some(e) => Err(e),
        None => Ok(ts),
    }
}

/// The first tag among `ts` from `i` on: `Some(None)` when there is none and the reader did not
/// fail, `None` when it failed before one.
pub open spec fn first_tag_from(ts: Seq<TokenView>, failed: bool, i: int) -> Option<Option<TokenView>>
    decreases ts.len() - i,
{
    if i < 0 || i >= ts.len() {
        if failed {
            None
        } else {
            Some(None)
        }
    } else if is_tag(ts[i]) {
        Some(Some(ts[i]))
    } else {
        first_tag_from(ts, failed, i + 1)
    }
}

/// The first start or empty-element tag of `src`: `Some(None)` when the document ends first,
/// `None` when the reader reports an error first.
pub open spec fn xml_first_tag(src: Seq<char>) -> Option<Option<TokenView>> {
    first_tag_from(xml_read(src).0, xml_read(src).1, 0)
}

/// The first start or empty-element tag of `src`, which is the root element.
pub fn first_tag(src: &str) -> (r: Result<Option<Token>, XmlError>)
    ensures
        match r {
            Ok(Some(t)) => xml_first_tag(src@) == Some(Some(t@)) && named(t@),
            Ok(None) => xml_first_tag(src@) == Some(None::<TokenView>),
            Err(_) => xml_first_tag(src@) is None,
        },
{
    let (ts, err) = read_tokens(src);
    let ghost tv = tokens_view(ts@);
    let mut i: usize = 0;
    while i < ts.len()
        invariant
            tv == tokens_view(ts@),
            xml_read(src@) == (tv, err is Some),
            i <= ts.len(),
            xml_first_tag(src@) == first_tag_from(tv, err is Some, i as int),
        decreases ts.len() - i,
    {
        let t = &ts[i];
        assert(tv[i as int] == t@);
        proof {
            lemma_token_named(src@, i as int);
        }
        if t.kind == TokenKind::Open || t.kind == TokenKind::Empty {
            return Ok(
                Some(
                    Token {
                        kind: t.kind,
                        raw: t.raw.clone(),
                        name: t.name.clone(),
                        content: t.content.clone(),
                    },
                ),
            );
        }
        i += 1;
    }
    match err {
        Some(e) => Err(e),
        None => Ok(None),
    }
}

/// What `quick_xml::writer::Writer::write_event` writes for each event of `src`.
pub uninterp spec fn xml_echo(src: Seq<char>) -> Option<Seq<Seq<char>>>;

/// The attributes `quick_xml::events::BytesStart::attributes` reads from the content of a tag.
pub uninterp spec fn xml_attributes(content: Seq<char>, name: Seq<char>) -> Seq<Option<AttrView>>;

/// `quick_xml::writer::Writer::write_event` of each event that `Reader::read_event` reads from
/// `src`, written on its own.
///
/// Claimed: the result is a function of `src` alone, and the reader reads the same events as in
/// [`events`], so both succeed together and give one string per token. What is written for an event
/// is not stated. As for [`events`], the text must not start with a byte-order mark.
#[verifier::external_body]
pub fn echo(src: &str) -> (r: Result<Vec<String>, XmlError>)
    requires
        !has_bom(src@),
    ensures
        match r {
            Ok(v) => xml_tokens(src@) is Some && xml_echo(src@) == Some(
                v@.map_values(|s: String| s@),
            ) && v.len() == xml_tokens(src@).unwrap().len(),
            Err(_) => xml_tokens(src@) is None,
        },
{
    let mut reader = Reader::from_str(src);
    let mut out: Vec<String> = Vec::new();
    loop {
        let event = reader.read_event().map_err(|e| XmlError { message: e.to_string() })?;
        if let Event::Eof = event {
            return Ok(out);
        }
        let mut writer = Writer::new(Vec::new());
        writer.write_event(event).map_err(|e| XmlError { message: e.to_string() })?;
        out.push(String::from_utf8(writer.into_inner()).map_err(|e| XmlError { message: e.to_string() })?);
    }
}

/// `quick_xml::events::BytesStart::attributes` over a tag's content, each attribute with its raw
/// value and its value from `Attribute::normalized_value`.
///
/// Claimed: the result is a function of the content and the name alone. What the reader makes of
/// a given attribute text is not stated. The reader starts at the end of the name, so the content
/// must start with the name: anywhere else, it could cut a character in two.
#[verifier::external_body]
pub fn attributes(content: &str, name: &str) -> (r: Vec<Option<Attr>>)
    requires
        starts_with(content@, name@),
    ensures
        attrs_view(r@) == xml_attributes(content@, name@),
{
    BytesStart::from_content(content, name.len()).attributes().map(|a| a.ok().map(|a| Attr {
        key: a.key.0.to_string(),
        raw: a.value.to_string(),
        value: a.normalized_value(quick_xml::XmlVersion::Implicit1_0).ok().map(|v| v.into_owned()),
    })).collect()
}

/// The value of the first attribute named `key` from `i` on: `Some(None)` when there is none,
/// `None` when the reader cannot read an attribute before it or its value.
pub open spec fn attr_among(attrs: Seq<Option<AttrView>>, key: Seq<char>, i: int) -> Option<
    Option<Seq<char>>,
>
    decreases attrs.len() - i,
{
    if i < 0 || i >= attrs.len() {
        Some(None)
    } else {
        match attrs[i] {
            None => None,
            Some(a) => if a.key == key {
                match a.value {
                    Some(v) => Some(Some(v)),
                    None => None,
                }
            } else {
                attr_among(attrs, key, i + 1)
            },
        }
    }
}

/// The message for an attribute the reader cannot read.
pub fn bad_attribute() -> (r: XmlError)
    ensures
        r.message@ == "attribute"@,
{
    XmlError { message: "attribute".to_owned() }
}

/// The value of the first attribute named `key` in a tag, normalized.
pub fn attr(content: &str, name: &str, key: &str) -> (r: Result<Option<String>, XmlError>)
    requires
        crate::text::starts_with(content@, name@),
    ensures
        match r {
            Ok(Some(v)) => attr_among(xml_attributes(content@, name@), key@, 0) == Some(Some(v@)),
            Ok(None) => attr_among(xml_attributes(content@, name@), key@, 0) == Some(
                None::<Seq<char>>,
            ),
            Err(_) => attr_among(xml_attributes(content@, name@), key@, 0) is None,
        },
{
    let attrs = attributes(content, name);
    let ghost av = attrs_view(attrs@);
    let mut k: usize = 0;
    while k < attrs.len()
        invariant
            av == attrs_view(attrs@),
            av == xml_attributes(content@, name@),
            k <= attrs.len(),
            attr_among(av, key@, 0) == attr_among(av, key@, k as int),
        decreases attrs.len() - k,
    {
        match &attrs[k] {
            None => {
                assert(av[k as int] is None);
                return Err(bad_attribute());
            },
            Some(a) => {
                assert(av[k as int] == Some(a@));
                if crate::text::str_eq(a.key.as_str(), key) {
                    match &a.value {
                        Some(v) => {
                            return Ok(Some(v.clone()));
                        },
                        None => {
                            return Err(bad_attribute());
                        },
                    }
                }
            },
        }
        k += 1;
    }
    Ok(None)
}

/// What the escaping of an attribute value writes for one character.
pub open spec fn escape_char(c: char) -> Seq<char> {
    if c == '<' {
        "&lt;"@
    } else if c == '>' {
        "&gt;"@
    } else if c == '\'' {
        "&apos;"@
    } else if c == '&' {
        "&amp;"@
    } else if c == '"' {
        "&quot;"@
    } else if c == '\t' {
        "&#9;"@
    } else if c == '\n' {
        "&#10;"@
    } else if c == '\r' {
        "&#13;"@
    } else {
        seq![c]
    }
}

/// An attribute value as the writer escapes it.
pub open spec fn escape_attr(s: Seq<char>) -> Seq<char>
    decreases s.len(),
{
    if s.len() == 0 {
        Seq::empty()
    } else {
        escape_attr(s.drop_last()) + escape_char(s.last())
    }
}

/// Whether a character may stand as it is inside a double-quoted attribute value that a reader
/// gives back unchanged: no markup, no quote, and no white space that a reader would normalize.
pub open spec fn safe_in_value(c: char) -> bool {
    c != '<' && c != '>' && c != '"' && c != '\'' && c != '\t' && c != '\n' && c != '\r'
}

proof fn lemma_escape_char_safe(c: char)
    ensures
        forall|j: int| 0 <= j < escape_char(c).len() ==> safe_in_value(#[trigger] escape_char(c)[j]),
{
    reveal_strlit("&lt;");
    reveal_strlit("&gt;");
    reveal_strlit("&apos;");
    reveal_strlit("&amp;");
    reveal_strlit("&quot;");
    reveal_strlit("&#9;");
    reveal_strlit("&#10;");
    reveal_strlit("&#13;");
}

/// An escaped attribute value holds no markup, no quote and no raw tab or line break: it cannot end
/// the value early, and a reader normalizes none of it away.
pub proof fn lemma_escaped_value_is_safe(s: Seq<char>)
    ensures
        forall|j: int| 0 <= j < escape_attr(s).len() ==> safe_in_value(#[trigger] escape_attr(s)[j]),
    decreases s.len(),
{
    if s.len() > 0 {
        lemma_escaped_value_is_safe(s.drop_last());
        lemma_escape_char_safe(s.last());
        let a = escape_attr(s.drop_last());
        let b = escape_char(s.last());
        assert forall|j: int| 0 <= j < escape_attr(s).len() implies safe_in_value(
            #[trigger] escape_attr(s)[j],
        ) by {
            if j < a.len() {
                assert(escape_attr(s)[j] == a[j]);
            } else {
                assert(escape_attr(s)[j] == b[j - a.len()]);
            }
        }
    }
}

/// An attribute to write: its name, its value, and whether the value still needs escaping (a
/// value read from the source is written as it was).
pub struct NewAttr {
    pub key: String,
    pub value: String,
    pub escape: bool,
}

/// The attributes to write, as plain values.
pub open spec fn new_attrs_view(v: Seq<NewAttr>) -> Seq<(Seq<char>, Seq<char>, bool)> {
    v.map_values(|a: NewAttr| (a.key@, a.value@, a.escape))
}

/// The text of the first `n` attributes in a tag: a space, the name, `="`, the value, `"`.
pub open spec fn attrs_text(attrs: Seq<(Seq<char>, Seq<char>, bool)>, n: int) -> Seq<char>
    decreases n,
{
    if n <= 0 {
        Seq::empty()
    } else {
        let (k, v, e) = attrs[n - 1];
        attrs_text(attrs, n - 1) + " "@ + k + "=\""@ + (if e {
            escape_attr(v)
        } else {
            v
        }) + "\""@
    }
}

/// A tag built from a name and attributes, as the writer writes it.
pub open spec fn tag_text(name: Seq<char>, attrs: Seq<(Seq<char>, Seq<char>, bool)>, empty: bool) -> Seq<char> {
    "<"@ + name + attrs_text(attrs, attrs.len() as int) + if empty {
        "/>"@
    } else {
        ">"@
    }
}

/// `quick_xml::events::BytesStart::new(name)`, `push_attribute` of each attribute, then
/// `Writer::write_event` as `Event::Start` or `Event::Empty`.
///
/// Claimed, from the source of `push_attribute`, of `escape_attribute` and of `write_event`: the
/// text is `<`, the name, each attribute as ` name="value"` with the value escaped when asked, and
/// `>` or `/>`.
#[verifier::external_body]
pub fn write_tag(name: &str, attrs: &Vec<NewAttr>, empty: bool) -> (r: String)
    ensures
        r@ == tag_text(name@, new_attrs_view(attrs@), empty),
{
    let mut tag = BytesStart::new(name);
    for a in attrs {
        match a.escape {
            true => tag.push_attribute((a.key.as_str(), a.value.as_str())),
            false => tag.push_attribute(Attribute { key: QName(&a.key), value: a.value.as_str().into() }),
        }
    }
    let mut writer = Writer::new(Vec::new());
    let _ = writer.write_event(if empty { Event::Empty(tag) } else { Event::Start(tag) });
    String::from_utf8(writer.into_inner()).unwrap_or_default()
}

/// `quick_xml::writer::Writer::write_event` of `Event::End(BytesEnd::new(name))`.
///
/// Claimed, from the source of `write_event`: the text is `</`, the name, `>`.
#[verifier::external_body]
pub fn write_end(name: &str) -> (r: String)
    ensures
        r@ == "</"@ + name@ + ">"@,
{
    let mut writer = Writer::new(Vec::new());
    let _ = writer.write_event(Event::End(BytesEnd::new(name)));
    String::from_utf8(writer.into_inner()).unwrap_or_default()
}


/// The tokens of `src` and what the writer writes for each, `None` when the reader refuses `src`.
pub open spec fn read_doc(src: Seq<char>) -> Option<(Seq<TokenView>, Seq<Seq<char>>)> {
    match (xml_tokens(src), xml_echo(bom_free(src))) {
        (Some(ts), Some(ws)) => if ws.len() == ts.len() {
            Some((ts, ws))
        } else {
            None
        },
        _ => None,
    }
}

/// Read `src` into tokens, with what the writer writes for each.
pub fn read(src: &str) -> (r: Result<(Vec<Token>, Vec<String>), XmlError>)
    ensures
        match r {
            Ok((ts, ws)) => read_doc(src@) == Some(
                (tokens_view(ts@), ws@.map_values(|s: String| s@)),
            ) && ts.len() == ws.len(),
            Err(_) => read_doc(src@) is None,
        },
{
    let ts = lex(src)?;
    let doc = without_bom(src);
    assert(!has_bom(doc@));
    let ws = echo(doc.as_str())?;
    Ok((ts, ws))
}

} // verus!

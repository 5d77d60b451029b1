use vstd::prelude::*;

use quick_xml::events::{BytesStart, Event};
use quick_xml::Error as XmlFault;
use quick_xml::Reader;
use vstd::utf8::{decode_utf8, valid_utf8};

use crate::text::chars_of;
use crate::to_json::{self, ErrorView, EventView, MarkupEvent};

verus! {

/// A quick-xml tokenizer over one document, with the default settings of
/// `quick_xml::Reader::from_str`. What it has read so far is described by
/// `tokenizer_text` and `tokenizer_reads`.
#[verifier::external_body]
struct Tokenizer<'a> {
    reader: Reader<&'a [u8]>,
}

/// The document that a tokenizer reads.
pub uninterp spec fn tokenizer_text(t: Tokenizer) -> Seq<char>;

/// How many tokens a tokenizer has handed out.
pub uninterp spec fn tokenizer_reads(t: Tokenizer) -> nat;

/// One token as the tokenizer gives it, before it is decoded.
pub enum RawToken {
    /// An element that opens: its bytes (name, then attributes) and the
    /// length of its name.
    Start(Seq<u8>, nat),
    /// An element that opens and closes at once, in the same form.
    Empty(Seq<u8>, nat),
    End,
    /// Character data, still escaped.
    Text(Seq<u8>),
    /// A declaration, comment, CDATA section, processing instruction or
    /// document type.
    Ignored,
    Eof,
    /// The tokenizer's error, as its message.
    Fail(Seq<char>),
}

/// The token at position `k` (from 0) that `quick_xml::Reader::from_str(doc)`
/// hands out; after the end or a failure it hands out `Eof`.
pub uninterp spec fn xml_token(doc: Seq<char>, k: nat) -> RawToken;

/// One attribute as the tokenizer gives it.
pub enum RawAttribute {
    /// Its name and its value, still escaped.
    Attr(Seq<u8>, Seq<u8>),
    End,
    /// The tokenizer's error, as its message.
    Fail(Seq<char>),
}

/// The item at position `i` (from 0) that the attribute iterator of the element
/// bytes `content`, whose name is `name_len` bytes long, hands out.
pub uninterp spec fn element_attribute(content: Seq<u8>, name_len: nat, i: nat) -> RawAttribute;

/// The bytes `b` with their escapes (`&amp;`, `&#60;`, ...) replaced, or the
/// tokenizer's error message.
pub uninterp spec fn xml_unescaped(b: Seq<u8>) -> Result<Seq<u8>, Seq<char>>;

/// The message of the error for bytes `b` that are not valid UTF-8.
pub uninterp spec fn utf8_error_text(b: Seq<u8>) -> Seq<char>;

/// One token, with its bytes copied out.
enum RawEvent {
    Start(Vec<u8>, usize),
    Empty(Vec<u8>, usize),
    End,
    Text(Vec<u8>),
    Ignored,
    Eof,
}

spec fn raw_view(r: Result<RawEvent, String>) -> RawToken {
    match r {
        Ok(RawEvent::Start(c, n)) => RawToken::Start(c@, n as nat),
        Ok(RawEvent::Empty(c, n)) => RawToken::Empty(c@, n as nat),
        Ok(RawEvent::End) => RawToken::End,
        Ok(RawEvent::Text(b)) => RawToken::Text(b@),
        Ok(RawEvent::Ignored) => RawToken::Ignored,
        Ok(RawEvent::Eof) => RawToken::Eof,
        Err(m) => RawToken::Fail(m@),
    }
}

spec fn attribute_view(r: Option<Result<(Vec<u8>, Vec<u8>), String>>) -> RawAttribute {
    match r {
        None => RawAttribute::End,
        Some(Ok((k, v))) => RawAttribute::Attr(k@, v@),
        Some(Err(m)) => RawAttribute::Fail(m@),
    }
}

/// Relies on `quick_xml::Reader::from_str`: a tokenizer over `xml` that has
/// read nothing yet.
#[verifier::external_body]
fn xml_reader<'a>(xml: &'a str) -> (t: Tokenizer<'a>)
    ensures
        tokenizer_text(t) == xml@,
        tokenizer_reads(t) == 0,
{
    Tokenizer { reader: Reader::from_str(xml) }
}

/// Relies on `quick_xml::Reader::read_event`: the next token of the document,
/// element bytes copied out through `Deref` and their name length through
/// `BytesStart::name`, or the tokenizer's error message.
#[verifier::external_body]
fn read_raw_event(t: &mut Tokenizer) -> (r: Result<RawEvent, String>)
    ensures
        tokenizer_text(*final(t)) == tokenizer_text(*old(t)),
        tokenizer_reads(*final(t)) == tokenizer_reads(*old(t)) + 1,
        raw_view(r) == xml_token(tokenizer_text(*old(t)), tokenizer_reads(*old(t))),
        r matches Ok(RawEvent::Start(c, n)) ==> n <= c@.len(),
        r matches Ok(RawEvent::Empty(c, n)) ==> n <= c@.len(),
{
    let mut buf = Vec::new();
    match t.reader.read_event(&mut buf) {
        Ok(Event::Start(e)) => Ok(RawEvent::Start(e.to_vec(), e.name().len())),
        Ok(Event::Empty(e)) => Ok(RawEvent::Empty(e.to_vec(), e.name().len())),
        Ok(Event::End(_)) => Ok(RawEvent::End),
        Ok(Event::Text(e)) => Ok(RawEvent::Text(e.to_vec())),
        Ok(Event::Eof) => Ok(RawEvent::Eof),
        Ok(_) => Ok(RawEvent::Ignored),
        Err(e) => Err(e.to_string()),
    }
}

/// Relies on `quick_xml::events::BytesStart::attributes`: item `i` of the
/// attribute iterator of the element bytes `content`, as its name and raw
/// value, or the tokenizer's error message.
#[verifier::external_body]
fn attribute_at(content: &Vec<u8>, name_len: usize, i: usize) -> (r: Option<
    Result<(Vec<u8>, Vec<u8>), String>,
>)
    requires
        name_len <= content@.len(),
    ensures
        attribute_view(r) == element_attribute(content@, name_len as nat, i as nat),
{
    match BytesStart::borrowed(content, name_len).attributes().nth(i) {
        None => None,
        Some(Ok(a)) => Some(Ok((a.key.to_vec(), a.value.to_vec()))),
        Some(Err(e)) => Some(Err(e.to_string())),
    }
}

/// Relies on `quick_xml::escape::unescape`, the unescaping that attribute
/// values and texts go through, with its error reported as
/// `quick_xml::Error::EscapeError`.
#[verifier::external_body]
fn unescape_bytes(b: &Vec<u8>) -> (r: Result<Vec<u8>, String>)
    ensures
        match r {
            Ok(v) => xml_unescaped(b@) == Ok::<Seq<u8>, Seq<char>>(v@),
            Err(m) => xml_unescaped(b@) == Err::<Seq<u8>, Seq<char>>(m@),
        },
{
    match quick_xml::escape::unescape(b) {
        Ok(v) => Ok(v.into_owned()),
        Err(e) => Err(XmlFault::EscapeError(e).to_string()),
    }
}

/// Relies on `String::from_utf8`: a string exactly when `b` is valid UTF-8,
/// holding the characters that `b` encodes, else the error's message.
#[verifier::external_body]
fn utf8_string(b: Vec<u8>) -> (r: Result<String, String>)
    ensures
        r is Ok <==> valid_utf8(b@),
        r matches Ok(s) ==> s@ == decode_utf8(b@),
        r matches Err(m) ==> m@ == utf8_error_text(b@),
{
    String::from_utf8(b).map_err(|e| e.to_string())
}

/// The text that the UTF-8 bytes `b` encode, or the failure to read them.
pub open spec fn utf8_text(b: Seq<u8>) -> Result<Seq<char>, ErrorView> {
    if valid_utf8(b) {
        Ok(decode_utf8(b))
    } else {
        Err(ErrorView::ParseStringError(utf8_error_text(b)))
    }
}

/// The text of the escaped UTF-8 bytes `b`, or the failure to read it.
pub open spec fn unescaped_text(b: Seq<u8>) -> Result<Seq<char>, ErrorView> {
    match xml_unescaped(b) {
        Ok(u) => utf8_text(u),
        Err(m) => Err(ErrorView::XmlError(m)),
    }
}

/// The message for a document that yields more tokens than it has characters,
/// or an element more attributes than it has bytes.
pub open spec fn overflow_message() -> Seq<char> {
    "more markup tokens than input"@
}

/// The attributes of the element bytes `content` from item `i` on, decoded,
/// reading at most `fuel` of them.
pub open spec fn attributes_from(content: Seq<u8>, name_len: nat, i: nat, fuel: nat) -> Result<
    Seq<(Seq<char>, Seq<char>)>,
    ErrorView,
>
    decreases fuel,
{
    match element_attribute(content, name_len, i) {
        RawAttribute::End => Ok(Seq::empty()),
        RawAttribute::Fail(m) => Err(ErrorView::XmlError(m)),
        RawAttribute::Attr(k, v) => if fuel == 0 {
            Err(ErrorView::XmlError(overflow_message()))
        } else {
            match utf8_text(k) {
                Err(e) => Err(e),
                Ok(key) => match unescaped_text(v) {
                    Err(e) => Err(e),
                    Ok(value) => match attributes_from(content, name_len, i + 1, (fuel - 1) as nat) {
                        Err(e) => Err(e),
                        Ok(rest) => Ok(seq![(key, value)] + rest),
                    },
                },
            }
        },
    }
}

/// The name and attributes of the element bytes `content`, decoded.
pub open spec fn element_spec(content: Seq<u8>, name_len: nat) -> Result<
    (Seq<char>, Seq<(Seq<char>, Seq<char>)>),
    ErrorView,
> {
    match utf8_text(content.take(name_len as int)) {
        Err(e) => Err(e),
        Ok(name) => match attributes_from(content, name_len, 0, content.len()) {
            Err(e) => Err(e),
            Ok(a) => Ok((name, a)),
        },
    }
}

/// The event that the token `t` gives once decoded, or the failure to decode
/// it; none at the end of the document.
pub open spec fn token_event(t: RawToken) -> Option<Result<EventView, ErrorView>> {
    match t {
        RawToken::Eof => None,
        RawToken::Fail(m) => Some(Err(ErrorView::XmlError(m))),
        RawToken::Start(c, n) => Some(
            match element_spec(c, n) {
                Ok((name, a)) => Ok(EventView::Start(name, a)),
                Err(e) => Err(e),
            },
        ),
        RawToken::Empty(c, n) => Some(
            match element_spec(c, n) {
                Ok((name, a)) => Ok(EventView::Empty(name, a)),
                Err(e) => Err(e),
            },
        ),
        RawToken::End => Some(Ok(EventView::End)),
        RawToken::Text(b) => Some(
            match unescaped_text(b) {
                Ok(t) => Ok(EventView::Text(t)),
                Err(e) => Err(e),
            },
        ),
        RawToken::Ignored => Some(Ok(EventView::Ignored)),
    }
}

/// The events of `doc` from token `k` on, reading at most `fuel` more tokens
/// past this one, with the failure that ended them, if any.
pub open spec fn events_from(doc: Seq<char>, k: nat, fuel: nat) -> (
    Seq<EventView>,
    Option<ErrorView>,
)
    decreases fuel,
{
    match token_event(xml_token(doc, k)) {
        None => (Seq::empty(), None),
        Some(Err(e)) => (Seq::empty(), Some(e)),
        Some(Ok(e)) => if fuel == 0 {
            (seq![e], Some(ErrorView::XmlError(overflow_message())))
        } else {
            let rest = events_from(doc, k + 1, (fuel - 1) as nat);
            (seq![e] + rest.0, rest.1)
        },
    }
}

/// The markup events of the document `doc`, decoded, up to its end or its
/// first failure, which comes with them. Every token spans at least one
/// character, so a document handing out more tokens than it has characters
/// is reported as an `XmlError` rather than read on.
pub open spec fn markup_events(doc: Seq<char>) -> (Seq<EventView>, Option<ErrorView>) {
    events_from(doc, 0, doc.len())
}

/// The first `n` bytes of `v`.
fn prefix(v: &Vec<u8>, n: usize) -> (r: Vec<u8>)
    requires
        n <= v@.len(),
    ensures
        r@ == v@.take(n as int),
{
    let mut out: Vec<u8> = Vec::new();
    let mut i: usize = 0;
    while i < n
        invariant
            i <= n <= v@.len(),
            out@ == v@.take(i as int),
        decreases n - i,
    {
        out.push(v[i]);
        i = i + 1;
        assert(out@ =~= v@.take(i as int));
    }
    out
}

/// The text that the UTF-8 bytes `b` encode.
fn utf8_text_of(b: Vec<u8>) -> (r: Result<String, to_json::Error>)
    ensures
        match r {
            Ok(s) => utf8_text(b@) == Ok::<Seq<char>, ErrorView>(s@),
            Err(e) => utf8_text(b@) == Err::<Seq<char>, ErrorView>(e@),
        },
{
    match utf8_string(b) {
        Ok(s) => Ok(s),
        Err(m) => Err(to_json::Error::ParseStringError(m)),
    }
}

/// The text of the escaped UTF-8 bytes `b`.
fn unescaped_text_of(b: &Vec<u8>) -> (r: Result<String, to_json::Error>)
    ensures
        match r {
            Ok(s) => unescaped_text(b@) == Ok::<Seq<char>, ErrorView>(s@),
            Err(e) => unescaped_text(b@) == Err::<Seq<char>, ErrorView>(e@),
        },
{
    match unescape_bytes(b) {
        Ok(u) => utf8_text_of(u),
        Err(m) => Err(to_json::Error::XmlError(m)),
    }
}

spec fn prepend_attrs(
    done: Seq<(Seq<char>, Seq<char>)>,
    r: Result<Seq<(Seq<char>, Seq<char>)>, ErrorView>,
) -> Result<Seq<(Seq<char>, Seq<char>)>, ErrorView> {
    match r {
        Ok(rest) => Ok(done + rest),
        Err(e) => Err(e),
    }
}

/// The name and attributes of the element bytes `content`, decoded.
fn element_parts(content: &Vec<u8>, name_len: usize) -> (r: Result<
    (String, Vec<(String, String)>),
    to_json::Error,
>)
    requires
        name_len <= content@.len(),
    ensures
        match r {
            Ok((n, a)) => element_spec(content@, name_len as nat) == Ok::<
                (Seq<char>, Seq<(Seq<char>, Seq<char>)>),
                ErrorView,
            >((n@, to_json::attrs_view(a@))),
            Err(e) => element_spec(content@, name_len as nat) == Err::<
                (Seq<char>, Seq<(Seq<char>, Seq<char>)>),
                ErrorView,
            >(e@),
        },
{
    let name = match utf8_text_of(prefix(content, name_len)) {
        Ok(n) => n,
        Err(e) => return Err(e),
    };
    let ghost whole = attributes_from(content@, name_len as nat, 0, content@.len());
    let mut attributes: Vec<(String, String)> = Vec::new();
    let mut i: usize = 0;
    let mut left: usize = content.len();
    assert(to_json::attrs_view(attributes@) =~= Seq::<(Seq<char>, Seq<char>)>::empty());
    assert(prepend_attrs(Seq::empty(), whole) =~= whole);
    loop
        invariant
            name_len <= content@.len(),
            content@.len() <= usize::MAX,
            i + left == content@.len(),
            utf8_text(content@.take(name_len as int)) == Ok::<Seq<char>, ErrorView>(name@),
            whole == attributes_from(content@, name_len as nat, 0, content@.len()),
            whole == prepend_attrs(
                to_json::attrs_view(attributes@),
                attributes_from(content@, name_len as nat, i as nat, left as nat),
            ),
        ensures
            utf8_text(content@.take(name_len as int)) == Ok::<Seq<char>, ErrorView>(name@),
            whole == Ok::<Seq<(Seq<char>, Seq<char>)>, ErrorView>(to_json::attrs_view(attributes@)),
        decreases left,
    {
        let ghost done = to_json::attrs_view(attributes@);
        match attribute_at(content, name_len, i) {
            None => {
                assert(attributes_from(content@, name_len as nat, i as nat, left as nat) == Ok::<
                    Seq<(Seq<char>, Seq<char>)>,
                    ErrorView,
                >(Seq::empty()));
                assert(done + Seq::<(Seq<char>, Seq<char>)>::empty() =~= done);
                break;
            },
            Some(Err(m)) => {
                let e = to_json::Error::XmlError(m);
                assert(whole == Err::<Seq<(Seq<char>, Seq<char>)>, ErrorView>(e@));
                return Err(e);
            },
            Some(Ok((k, v))) => {
                if left == 0 {
                    let e = to_json::Error::XmlError(String::from_str("more markup tokens than input"));
                    assert(whole == Err::<Seq<(Seq<char>, Seq<char>)>, ErrorView>(e@));
                    return Err(e);
                }
                let key = match utf8_text_of(k) {
                    Ok(s) => s,
                    Err(e) => {
                        assert(whole == Err::<Seq<(Seq<char>, Seq<char>)>, ErrorView>(e@));
                        return Err(e);
                    },
                };
                let value = match unescaped_text_of(&v) {
                    Ok(s) => s,
                    Err(e) => {
                        assert(whole == Err::<Seq<(Seq<char>, Seq<char>)>, ErrorView>(e@));
                        return Err(e);
                    },
                };
                let ghost pair = (key@, value@);
                attributes.push((key, value));
                assert(to_json::attrs_view(attributes@) =~= done.push(pair));
                proof {
                    let rest = attributes_from(content@, name_len as nat, (i + 1) as nat, (left - 1) as nat);
                    if rest is Ok {
                        assert(done + (seq![pair] + rest->Ok_0) =~= done.push(pair) + rest->Ok_0);
                    }
                }
                i = i + 1;
                left = left - 1;
            },
        }
    }
    Ok((name, attributes))
}

spec fn event_result_view(r: Option<Result<MarkupEvent, to_json::Error>>) -> Option<
    Result<EventView, ErrorView>,
> {
    match r {
        None => None,
        Some(Ok(e)) => Some(Ok(e@)),
        Some(Err(e)) => Some(Err(e@)),
    }
}

/// The event that a token gives once decoded; none at the end of the document.
fn token_to_event(raw: Result<RawEvent, String>) -> (r: Option<Result<MarkupEvent, to_json::Error>>)
    requires
        raw matches Ok(RawEvent::Start(c, n)) ==> n <= c@.len(),
        raw matches Ok(RawEvent::Empty(c, n)) ==> n <= c@.len(),
    ensures
        event_result_view(r) == token_event(raw_view(raw)),
{
    match raw {
        Err(m) => Some(Err(to_json::Error::XmlError(m))),
        Ok(RawEvent::Eof) => None,
        Ok(RawEvent::Start(c, n)) => match element_parts(&c, n) {
            Ok((name, attributes)) => Some(Ok(MarkupEvent::Start { name, attributes })),
            Err(e) => Some(Err(e)),
        },
        Ok(RawEvent::Empty(c, n)) => match element_parts(&c, n) {
            Ok((name, attributes)) => Some(Ok(MarkupEvent::Empty { name, attributes })),
            Err(e) => Some(Err(e)),
        },
        Ok(RawEvent::End) => Some(Ok(MarkupEvent::End)),
        Ok(RawEvent::Text(b)) => match unescaped_text_of(&b) {
            Ok(t) => Some(Ok(MarkupEvent::Text(t))),
            Err(e) => Some(Err(e)),
        },
        Ok(RawEvent::Ignored) => Some(Ok(MarkupEvent::Ignored)),
    }
}

spec fn prepend_events(done: Seq<EventView>, r: (Seq<EventView>, Option<ErrorView>)) -> (
    Seq<EventView>,
    Option<ErrorView>,
) {
    (done + r.0, r.1)
}

/// The number of characters of `s`.
fn char_count(s: &str) -> (n: usize)
    ensures
        n == s@.len(),
{
    chars_of(s).len()
}

/// Tokenizes `xml` into markup events, up to its end or its first failure,
/// which is returned beside the events read before it. A name, attribute or
/// text that is not UTF-8 fails with `ParseStringError`; the tokenizer's own
/// failures come as `XmlError`.
pub fn read_events(xml: &str) -> (r: (Vec<MarkupEvent>, Option<to_json::Error>))
    ensures
        (to_json::events_view(r.0@), to_json::failure_view(r.1)) == markup_events(xml@),
{
    let mut tok = xml_reader(xml);
    let mut events: Vec<MarkupEvent> = Vec::new();
    let mut left = char_count(xml);
    let ghost doc = xml@;
    let ghost whole = markup_events(doc);
    assert(to_json::events_view(events@) =~= Seq::<EventView>::empty());
    assert(prepend_events(Seq::empty(), whole) == whole) by {
        assert(Seq::<EventView>::empty() + whole.0 =~= whole.0);
    }
    loop
        invariant
            tokenizer_text(tok) == doc,
            doc == xml@,
            whole == markup_events(doc),
            whole == prepend_events(
                to_json::events_view(events@),
                events_from(doc, tokenizer_reads(tok), left as nat),
            ),
        decreases left,
    {
        let ghost done = to_json::events_view(events@);
        let ghost k = tokenizer_reads(tok);
        let raw = read_raw_event(&mut tok);
        let event = match token_to_event(raw) {
            None => {
                assert(events_from(doc, k, left as nat) == (Seq::<EventView>::empty(), None::<ErrorView>));
                assert(done + Seq::<EventView>::empty() =~= done);
                return (events, None);
            },
            Some(Err(e)) => {
                assert(events_from(doc, k, left as nat) == (Seq::<EventView>::empty(), Some(e@)));
                assert(done + Seq::<EventView>::empty() =~= done);
                return (events, Some(e));
            },
            Some(Ok(e)) => e,
        };
        let ghost ev = event@;
        events.push(event);
        assert(to_json::events_view(events@) =~= done.push(ev));
        if left == 0 {
            assert(done + seq![ev] =~= done.push(ev));
            return (events, Some(to_json::Error::XmlError(String::from_str("more markup tokens than input"))));
        }
        proof {
            let rest = events_from(doc, k + 1, (left - 1) as nat);
            assert(done + (seq![ev] + rest.0) =~= done.push(ev) + rest.0);
        }
        left = left - 1;
    }
}

} // verus!

use vstd::prelude::*;
use vstd::string::StringExecFns;
use crate::events::{SpecEvent, XmlEvent};
use crate::model::{
    spec_skip, spec_text, spec_item, spec_channel_body, spec_seek, spec_parse, spec_item_field,
    lemma_skip_bounds, lemma_text_bounds, lemma_item_bounds, lemma_seek_bounds,
    spec_channel_field, item_with, channel_with, channel_push,
    empty_item, empty_channel, text_or_empty, ItemField, ChannelField, ItemView, ChannelView,
};
use crate::source::{EventSource, ParseError};

verus! {

/// The value of an optional owned string, as contracts speak of it.
pub open spec fn opt_view(o: Option<String>) -> Option<Seq<char>> {
    match o {
        Some(s) => Some(s@),
        None => None,
    }
}

/// How two stretches of accumulated text combine: absent text is the identity,
/// and present runs concatenate with no separator.
pub open spec fn text_join(a: Option<Seq<char>>, b: Option<Seq<char>>) -> Option<Seq<char>> {
    match a {
        None => b,
        Some(x) => match b {
            None => Some(x),
            Some(y) => Some(x + y),
        },
    }
}

proof fn lemma_text_join_shift(a: Option<Seq<char>>, t: Seq<char>, b: Option<Seq<char>>)
    ensures
        text_join(a, Some(t + text_or_empty(b))) == text_join(text_join(a, Some(t)), b),
{
    match a {
        None => {
            match b {
                None => {
                    assert(t + text_or_empty(b) =~= t);
                },
                Some(y) => {},
            }
        },
        Some(x) => {
            match b {
                None => {
                    assert(t + text_or_empty(b) =~= t);
                },
                Some(y) => {
                    assert(x + (t + y) =~= (x + t) + y);
                },
            }
        },
    }
}

proof fn lemma_skip_one(s: Seq<SpecEvent>, c: int)
    requires
        0 <= c < s.len(),
    ensures
        s.skip(c).drop_first() == s.skip(c + 1),
{
    assert(s.skip(c).drop_first() =~= s.skip(c + 1));
}

proof fn lemma_skip_skip(s: Seq<SpecEvent>, a: int, b: int)
    requires
        0 <= a,
        0 <= b,
        a + b <= s.len(),
    ensures
        s.skip(a).skip(b) == s.skip(a + b),
{
    assert(s.skip(a).skip(b) =~= s.skip(a + b));
}

/// Whether an element name equals a recognized literal, stated over the
/// names' character sequences.
fn name_is(n: &String, lit: &str) -> (r: bool)
    ensures
        r == (n@ == lit@),
{
    let s: String = lit.to_owned();
    *n == s
}

/// Executable side of the entry-field dispatch table.
fn item_field_of(n: &String) -> (r: Option<ItemField>)
    ensures
        r == spec_item_field(n@),
{
    if name_is(n, "title") {
        Some(ItemField::Title)
    } else if name_is(n, "description") {
        Some(ItemField::Description)
    } else if name_is(n, "content:encoded") {
        Some(ItemField::ContentEncoded)
    } else if name_is(n, "link") {
        Some(ItemField::Link)
    } else if name_is(n, "author") {
        Some(ItemField::Author)
    } else if name_is(n, "category") {
        Some(ItemField::Category)
    } else if name_is(n, "pubDate") {
        Some(ItemField::PubDate)
    } else if name_is(n, "guid") {
        Some(ItemField::Guid)
    } else {
        None
    }
}

/// Executable side of the container-field dispatch table.
fn channel_field_of(n: &String) -> (r: Option<ChannelField>)
    ensures
        r == spec_channel_field(n@),
{
    if name_is(n, "title") {
        Some(ChannelField::Title)
    } else if name_is(n, "description") {
        Some(ChannelField::Description)
    } else if name_is(n, "pubDate") {
        Some(ChannelField::PubDate)
    } else {
        None
    }
}

/// Extends accumulated text by one more run, in encounter order.
fn append_text(acc: Option<String>, t: String) -> (r: Option<String>)
    ensures
        opt_view(r) == text_join(opt_view(acc), Some(t@)),
{
    match acc {
        None => Some(t),
        Some(mut a) => {
            a.append(t.as_str());
            Some(a)
        },
    }
}

/// The element skipper: consumes every event of an already-started element,
/// nested children of any name and depth included, up to and through its
/// matching end-tag. On success the source stands just past that end-tag;
/// a truncated stream is reported as `Stream` with nothing salvaged.
#[verifier::loop_isolation(false)]
pub fn skip_element(src: &mut EventSource) -> (r: Result<(), ParseError>)
    ensures
        match r {
            Ok(_) => spec_skip(old(src).events(), 0) matches Some(n) && final(src).events() == old(
                src,
            ).events().skip(n as int),
            Err(e) => e is Stream ==> spec_skip(old(src).events(), 0) is None,
        },
        r is Ok ==> final(src).clean() == old(src).clean(),
        old(src).events().len() <= usize::MAX ==> {
            &&& (spec_skip(old(src).events(), 0) is Some ==> r is Ok)
            &&& (old(src).clean() && spec_skip(old(src).events(), 0) is None ==> r == Err::<
                (),
                ParseError,
            >(ParseError::Stream))
        },
{
    let ghost pre = src.events();
    let ghost pre_clean = src.clean();
    let ghost mut consumed: int = 0;
    proof {
        assert(pre.skip(0) =~= pre);
    }
    let mut depth: usize = 0;
    loop
        invariant
            0 <= consumed <= pre.len(),
            depth <= consumed,
            src.events() == pre.skip(consumed),
            src.clean() == pre_clean,
            match spec_skip(src.events(), depth as nat) {
                None => spec_skip(pre, 0) is None,
                Some(n) => spec_skip(pre, 0) == Some((consumed + n) as nat),
            },
        decreases pre.len() - consumed,
    {
        let ev = match src.next_event() {
            Ok(e) => e,
            Err(e) => return Err(e),
        };
        match ev {
            XmlEvent::Eof => {
                return Err(ParseError::Stream);
            },
            XmlEvent::Start(_) => {
                if depth == usize::MAX {
                    return Err(ParseError::TooDeep);
                }
                depth = depth + 1;
                proof {
                    lemma_skip_one(pre, consumed);
                    consumed = consumed + 1;
                }
            },
            XmlEvent::End => {
                proof {
                    lemma_skip_one(pre, consumed);
                }
                if depth == 0 {
                    return Ok(());
                }
                depth = depth - 1;
                proof {
                    consumed = consumed + 1;
                }
            },
            _ => {
                proof {
                    lemma_skip_one(pre, consumed);
                    consumed = consumed + 1;
                }
            },
        }
    }
}

/// The text accumulator: positioned just after an element's start-tag, reads
/// to that element's matching end-tag and hands back the concatenation of the
/// text and character-data runs met on the way, or `None` when there was no
/// run at all. Nested child elements are skipped whole and contribute
/// nothing. A truncated stream is reported as `Stream`.
#[verifier::loop_isolation(false)]
pub fn element_text(src: &mut EventSource) -> (r: Result<Option<String>, ParseError>)
    ensures
        match r {
            Ok(t) => spec_text(old(src).events()) matches Some(res) && res.0 == opt_view(t)
                && final(src).events() == old(src).events().skip(res.1 as int),
            Err(e) => e is Stream ==> spec_text(old(src).events()) is None,
        },
        r is Ok ==> final(src).clean() == old(src).clean(),
        old(src).events().len() <= usize::MAX ==> {
            &&& (spec_text(old(src).events()) is Some ==> r is Ok)
            &&& (old(src).clean() && spec_text(old(src).events()) is None ==> r == Err::<
                Option<String>,
                ParseError,
            >(ParseError::Stream))
        },
{
    let ghost pre = src.events();
    let ghost pre_clean = src.clean();
    let ghost mut consumed: int = 0;
    proof {
        assert(pre.skip(0) =~= pre);
    }
    let mut acc: Option<String> = None;
    loop
        invariant
            0 <= consumed <= pre.len(),
            src.events() == pre.skip(consumed),
            src.clean() == pre_clean,
            match spec_text(src.events()) {
                None => spec_text(pre) is None,
                Some(res) => spec_text(pre) matches Some(res0) && res0.0 == text_join(
                    opt_view(acc),
                    res.0,
                ) && res0.1 == consumed + res.1,
            },
        decreases pre.len() - consumed,
    {
        let ev = match src.next_event() {
            Ok(e) => e,
            Err(e) => return Err(e),
        };
        match ev {
            XmlEvent::Eof => {
                return Err(ParseError::Stream);
            },
            XmlEvent::End => {
                proof {
                    lemma_skip_one(pre, consumed);
                }
                return Ok(acc);
            },
            XmlEvent::Start(_) => {
                proof {
                    lemma_skip_one(pre, consumed);
                }
                let ghost rest = src.events();
                match skip_element(src) {
                    Ok(_) => {},
                    Err(e) => return Err(e),
                }
                proof {
                    match spec_skip(rest, 0) {
                        Some(n) => {
                            lemma_skip_bounds(rest, 0);
                            lemma_skip_skip(pre, consumed + 1, n as int);
                            consumed = consumed + 1 + n;
                        },
                        None => {
                            assert(false);
                        },
                    }
                }
            },
            XmlEvent::Text(t) => {
                proof {
                    lemma_skip_one(pre, consumed);
                    match spec_text(src.events()) {
                        Some(res) => {
                            lemma_text_join_shift(opt_view(acc), t@, res.0);
                        },
                        None => {},
                    }
                    consumed = consumed + 1;
                }
                acc = append_text(acc, t);
            },
            XmlEvent::CData(t) => {
                proof {
                    lemma_skip_one(pre, consumed);
                    match spec_text(src.events()) {
                        Some(res) => {
                            lemma_text_join_shift(opt_view(acc), t@, res.0);
                        },
                        None => {},
                    }
                    consumed = consumed + 1;
                }
                acc = append_text(acc, t);
            },
            XmlEvent::Other => {
                proof {
                    lemma_skip_one(pre, consumed);
                    consumed = consumed + 1;
                }
            },
        }
    }
}

/// One parsed entry: every field an independent optional string, present
/// exactly when an element of that name was met inside the entry, the empty
/// string standing for such an element that held no text.
#[derive(Debug, Clone)]
pub struct Item {
    pub title: Option<String>,
    pub description: Option<String>,
    pub content_encoded: Option<String>,
    pub link: Option<String>,
    pub author: Option<String>,
    pub category: Option<String>,
    pub pub_date: Option<String>,
    pub guid: Option<String>,
}

impl View for Item {
    type V = ItemView;

    open spec fn view(&self) -> ItemView {
        ItemView {
            title: opt_view(self.title),
            description: opt_view(self.description),
            content_encoded: opt_view(self.content_encoded),
            link: opt_view(self.link),
            author: opt_view(self.author),
            category: opt_view(self.category),
            pub_date: opt_view(self.pub_date),
            guid: opt_view(self.guid),
        }
    }
}

/// A parsed container: optional metadata plus the entries in document order.
#[derive(Debug)]
pub struct Channel {
    pub title: Option<String>,
    pub description: Option<String>,
    pub pub_date: Option<String>,
    pub items: Vec<Item>,
}

impl View for Channel {
    type V = ChannelView;

    open spec fn view(&self) -> ChannelView {
        ChannelView {
            title: opt_view(self.title),
            description: opt_view(self.description),
            pub_date: opt_view(self.pub_date),
            items: self.items@.map_values(|it: Item| it@),
        }
    }
}

/// Turns accumulated element text into the stored field value: encountering
/// the field makes it present, with no text at all stored as the empty
/// string.
fn field_value(t: Option<String>) -> (r: String)
    ensures
        r@ == text_or_empty(opt_view(t)),
{
    match t {
        Some(s) => s,
        None => String::new(),
    }
}

/// Stores one recognized field of an entry, overwriting any earlier value.
fn item_set(it: Item, f: ItemField, t: Option<String>) -> (r: Item)
    ensures
        r@ == item_with(it@, f, opt_view(t)),
{
    let mut it = it;
    let v = Some(field_value(t));
    match f {
        ItemField::Title => {
            it.title = v;
        },
        ItemField::Description => {
            it.description = v;
        },
        ItemField::ContentEncoded => {
            it.content_encoded = v;
        },
        ItemField::Link => {
            it.link = v;
        },
        ItemField::Author => {
            it.author = v;
        },
        ItemField::Category => {
            it.category = v;
        },
        ItemField::PubDate => {
            it.pub_date = v;
        },
        ItemField::Guid => {
            it.guid = v;
        },
    }
    it
}

/// Stores one recognized metadata field of a container, overwriting any
/// earlier value.
fn channel_set(ch: Channel, f: ChannelField, t: Option<String>) -> (r: Channel)
    ensures
        r@ == channel_with(ch@, f, opt_view(t)),
{
    let mut ch = ch;
    let v = Some(field_value(t));
    match f {
        ChannelField::Title => {
            ch.title = v;
        },
        ChannelField::Description => {
            ch.description = v;
        },
        ChannelField::PubDate => {
            ch.pub_date = v;
        },
    }
    ch
}

impl Item {
    /// The entry parser: positioned just after an entry's start-tag, reads to
    /// the entry's own end-tag, dispatching each recognized child by exact
    /// name to the text accumulator (a repeated name overwrites: the last
    /// occurrence wins) and skipping every unrecognized child whole. An entry
    /// with no recognized children is valid and comes back all-absent. A
    /// truncated stream is reported as `Stream`.
    #[verifier::loop_isolation(false)]
    pub fn from_reader(src: &mut EventSource) -> (r: Result<Item, ParseError>)
        ensures
            match r {
                Ok(it) => spec_item(old(src).events(), empty_item()) matches Some(res) && it@
                    == res.0 && final(src).events() == old(src).events().skip(res.1 as int),
                Err(e) => e is Stream ==> spec_item(old(src).events(), empty_item()) is None,
            },
            r is Ok ==> final(src).clean() == old(src).clean(),
            old(src).events().len() <= usize::MAX ==> {
                &&& (spec_item(old(src).events(), empty_item()) is Some ==> r is Ok)
                &&& (old(src).clean() && spec_item(old(src).events(), empty_item()) is None ==> r
                    == Err::<Item, ParseError>(ParseError::Stream))
            },
    {
        let ghost pre = src.events();
        let ghost pre_clean = src.clean();
        let ghost mut consumed: int = 0;
        proof {
            assert(pre.skip(0) =~= pre);
        }
        let mut item = Item {
            title: None,
            description: None,
            content_encoded: None,
            link: None,
            author: None,
            category: None,
            pub_date: None,
            guid: None,
        };
        loop
            invariant
                0 <= consumed <= pre.len(),
                src.events() == pre.skip(consumed),
                src.clean() == pre_clean,
                match spec_item(src.events(), item@) {
                    None => spec_item(pre, empty_item()) is None,
                    Some(res) => spec_item(pre, empty_item()) == Some(
                        (res.0, (consumed + res.1) as nat),
                    ),
                },
            decreases pre.len() - consumed,
        {
            let ev = match src.next_event() {
                Ok(e) => e,
                Err(e) => return Err(e),
            };
            match ev {
                XmlEvent::Eof => {
                    return Err(ParseError::Stream);
                },
                XmlEvent::End => {
                    proof {
                        lemma_skip_one(pre, consumed);
                    }
                    return Ok(item);
                },
                XmlEvent::Start(name) => {
                    proof {
                        lemma_skip_one(pre, consumed);
                    }
                    let ghost rest = src.events();
                    match item_field_of(&name) {
                        Some(f) => {
                            let t = match element_text(src) {
                                Ok(t) => t,
                                Err(e) => return Err(e),
                            };
                            item = item_set(item, f, t);
                            proof {
                                match spec_text(rest) {
                                    Some(tres) => {
                                        lemma_text_bounds(rest);
                                        lemma_skip_skip(pre, consumed + 1, tres.1 as int);
                                        consumed = consumed + 1 + tres.1;
                                    },
                                    None => {
                                        assert(false);
                                    },
                                }
                            }
                        },
                        None => {
                            match skip_element(src) {
                                Ok(_) => {},
                                Err(e) => return Err(e),
                            }
                            proof {
                                match spec_skip(rest, 0) {
                                    Some(n) => {
                                        lemma_skip_bounds(rest, 0);
                                        lemma_skip_skip(pre, consumed + 1, n as int);
                                        consumed = consumed + 1 + n;
                                    },
                                    None => {
                                        assert(false);
                                    },
                                }
                            }
                        },
                    }
                },
                _ => {
                    proof {
                        lemma_skip_one(pre, consumed);
                        consumed = consumed + 1;
                    }
                },
            }
        }
    }
}

/// The seek phase of the container parser: consumes events, without
/// recursing into unrelated elements, until the container's start-tag has
/// been consumed. A stream exhausted with no container found is a `Stream`
/// error: there is no way to recover once the stream is gone.
#[verifier::loop_isolation(false)]
fn seek_container(src: &mut EventSource) -> (r: Result<(), ParseError>)
    ensures
        match r {
            Ok(_) => spec_seek(old(src).events()) matches Some(n) && final(src).events() == old(
                src,
            ).events().skip(n as int),
            Err(e) => e is Stream ==> spec_seek(old(src).events()) is None,
        },
        r is Ok ==> final(src).clean() == old(src).clean(),
        old(src).events().len() <= usize::MAX ==> {
            &&& (spec_seek(old(src).events()) is Some ==> r is Ok)
            &&& (old(src).clean() && spec_seek(old(src).events()) is None ==> r == Err::<
                (),
                ParseError,
            >(ParseError::Stream))
        },
{
    let ghost pre = src.events();
    let ghost pre_clean = src.clean();
    let ghost mut consumed: int = 0;
    proof {
        assert(pre.skip(0) =~= pre);
    }
    loop
        invariant
            0 <= consumed <= pre.len(),
            src.events() == pre.skip(consumed),
            src.clean() == pre_clean,
            match spec_seek(src.events()) {
                None => spec_seek(pre) is None,
                Some(n) => spec_seek(pre) == Some((consumed + n) as nat),
            },
        decreases pre.len() - consumed,
    {
        let ev = match src.next_event() {
            Ok(e) => e,
            Err(e) => return Err(e),
        };
        match ev {
            XmlEvent::Eof => {
                return Err(ParseError::Stream);
            },
            XmlEvent::Start(name) => {
                proof {
                    lemma_skip_one(pre, consumed);
                }
                if name_is(&name, "channel") {
                    return Ok(());
                }
                proof {
                    consumed = consumed + 1;
                }
            },
            _ => {
                proof {
                    lemma_skip_one(pre, consumed);
                    consumed = consumed + 1;
                }
            },
        }
    }
}

impl Channel {
    /// The container parser. Seek phase: events are consumed, without
    /// recursing into unrelated elements, until the container's start-tag;
    /// a stream with no container at all is a `Stream` error, never an empty
    /// channel. Body phase: recognized metadata children dispatch to the text
    /// accumulator (last occurrence wins), each entry element is parsed and
    /// appended in arrival order, anything else is skipped whole, and the
    /// container's own end-tag completes the channel. A stream exhausted
    /// before that end-tag is a `Stream` error: no partial channel is ever
    /// handed back.
    #[verifier::loop_isolation(false)]
    pub fn from_reader(src: &mut EventSource) -> (r: Result<Channel, ParseError>)
        ensures
            match r {
                Ok(ch) => spec_parse(old(src).events()) == Some(ch@),
                Err(e) => e is Stream ==> spec_parse(old(src).events()) is None,
            },
            r is Ok ==> final(src).clean() == old(src).clean(),
            old(src).events().len() <= usize::MAX ==> {
                &&& (spec_parse(old(src).events()) is Some ==> r is Ok)
                &&& (old(src).clean() && spec_parse(old(src).events()) is None ==> r == Err::<
                    Channel,
                    ParseError,
                >(ParseError::Stream))
            },
    {
        let ghost pre = src.events();
        let ghost pre_clean = src.clean();
        proof {
            lemma_seek_bounds(pre);
        }
        match seek_container(src) {
            Ok(_) => {},
            Err(e) => return Err(e),
        }
        let ghost body_pre = src.events();
        let ghost mut body_consumed: int = 0;
        let mut ch = Channel { title: None, description: None, pub_date: None, items: Vec::new() };
        proof {
            assert(body_pre.skip(0) =~= body_pre);
            assert(ch@.items =~= Seq::<ItemView>::empty());
            assert(ch@ == empty_channel());
        }
        loop
            invariant
                spec_seek(pre) matches Some(n) && body_pre == pre.skip(n as int),
                0 <= body_consumed <= body_pre.len(),
                src.events() == body_pre.skip(body_consumed),
                src.clean() == pre_clean,
                match spec_channel_body(src.events(), ch@) {
                    None => spec_channel_body(body_pre, empty_channel()) is None,
                    Some(res) => spec_channel_body(body_pre, empty_channel()) == Some(
                        (res.0, (body_consumed + res.1) as nat),
                    ),
                },
            decreases body_pre.len() - body_consumed,
        {
            let ev = match src.next_event() {
                Ok(e) => e,
                Err(e) => return Err(e),
            };
            match ev {
                XmlEvent::Eof => {
                    return Err(ParseError::Stream);
                },
                XmlEvent::End => {
                    proof {
                        lemma_skip_one(body_pre, body_consumed);
                    }
                    return Ok(ch);
                },
                XmlEvent::Start(name) => {
                    proof {
                        lemma_skip_one(body_pre, body_consumed);
                    }
                    let ghost rest = src.events();
                    match channel_field_of(&name) {
                        Some(f) => {
                            let t = match element_text(src) {
                                Ok(t) => t,
                                Err(e) => return Err(e),
                            };
                            ch = channel_set(ch, f, t);
                            proof {
                                match spec_text(rest) {
                                    Some(tres) => {
                                        lemma_text_bounds(rest);
                                        lemma_skip_skip(body_pre, body_consumed + 1, tres.1 as int);
                                        body_consumed = body_consumed + 1 + tres.1;
                                    },
                                    None => {
                                        assert(false);
                                    },
                                }
                            }
                        },
                        None => {
                            if name_is(&name, "item") {
                                let it = match Item::from_reader(src) {
                                    Ok(it) => it,
                                    Err(e) => return Err(e),
                                };
                                let ghost old_ch = ch@;
                                let ghost itv = it@;
                                ch.items.push(it);
                                proof {
                                    assert(ch@.items =~= old_ch.items.push(itv));
                                    match spec_item(rest, empty_item()) {
                                        Some(ires) => {
                                            lemma_item_bounds(rest, empty_item());
                                            lemma_skip_skip(
                                                body_pre,
                                                body_consumed + 1,
                                                ires.1 as int,
                                            );
                                            body_consumed = body_consumed + 1 + ires.1;
                                        },
                                        None => {
                                            assert(false);
                                        },
                                    }
                                }
                            } else {
                                match skip_element(src) {
                                    Ok(_) => {},
                                    Err(e) => return Err(e),
                                }
                                proof {
                                    match spec_skip(rest, 0) {
                                        Some(n) => {
                                            lemma_skip_bounds(rest, 0);
                                            lemma_skip_skip(body_pre, body_consumed + 1, n as int);
                                            body_consumed = body_consumed + 1 + n;
                                        },
                                        None => {
                                            assert(false);
                                        },
                                    }
                                }
                            }
                        },
                    }
                },
                _ => {
                    proof {
                        lemma_skip_one(body_pre, body_consumed);
                        body_consumed = body_consumed + 1;
                    }
                },
            }
        }
    }
}

} // verus!

use vstd::prelude::*;
use crate::events::SpecEvent;

verus! {

/// The mathematical value of one parsed entry: every field an independent
/// optional string. A field is `Some` exactly when an element of that name was
/// encountered in the entry's span, even if it held no text.
pub struct ItemView {
    pub title: Option<Seq<char>>,
    pub description: Option<Seq<char>>,
    pub content_encoded: Option<Seq<char>>,
    pub link: Option<Seq<char>>,
    pub author: Option<Seq<char>>,
    pub category: Option<Seq<char>>,
    pub pub_date: Option<Seq<char>>,
    pub guid: Option<Seq<char>>,
}

/// The mathematical value of a parsed container: optional metadata plus the
/// entries in document order.
pub struct ChannelView {
    pub title: Option<Seq<char>>,
    pub description: Option<Seq<char>>,
    pub pub_date: Option<Seq<char>>,
    pub items: Seq<ItemView>,
}

/// The recognized fields of an entry.
pub enum ItemField {
    Title,
    Description,
    ContentEncoded,
    Link,
    Author,
    Category,
    PubDate,
    Guid,
}

/// The recognized metadata fields of the container.
pub enum ChannelField {
    Title,
    Description,
    PubDate,
}

pub open spec fn empty_item() -> ItemView {
    ItemView {
        title: None,
        description: None,
        content_encoded: None,
        link: None,
        author: None,
        category: None,
        pub_date: None,
        guid: None,
    }
}

pub open spec fn empty_channel() -> ChannelView {
    ChannelView { title: None, description: None, pub_date: None, items: Seq::empty() }
}

/// Name dispatch for entry fields: exact, case-sensitive; the one namespaced
/// content name is matched as a literal.
pub open spec fn spec_item_field(n: Seq<char>) -> Option<ItemField> {
    if n == "title"@ {
        Some(ItemField::Title)
    } else if n == "description"@ {
        Some(ItemField::Description)
    } else if n == "content:encoded"@ {
        Some(ItemField::ContentEncoded)
    } else if n == "link"@ {
        Some(ItemField::Link)
    } else if n == "author"@ {
        Some(ItemField::Author)
    } else if n == "category"@ {
        Some(ItemField::Category)
    } else if n == "pubDate"@ {
        Some(ItemField::PubDate)
    } else if n == "guid"@ {
        Some(ItemField::Guid)
    } else {
        None
    }
}

/// Name dispatch for container metadata fields.
pub open spec fn spec_channel_field(n: Seq<char>) -> Option<ChannelField> {
    if n == "title"@ {
        Some(ChannelField::Title)
    } else if n == "description"@ {
        Some(ChannelField::Description)
    } else if n == "pubDate"@ {
        Some(ChannelField::PubDate)
    } else {
        None
    }
}

pub open spec fn is_item_name(n: Seq<char>) -> bool {
    n == "item"@
}

pub open spec fn is_container_name(n: Seq<char>) -> bool {
    n == "channel"@
}

/// Accumulated text turned into a field value: encountering a field makes it
/// present, with the empty string standing for an element that held no text.
pub open spec fn text_or_empty(t: Option<Seq<char>>) -> Seq<char> {
    match t {
        Some(s) => s,
        None => Seq::empty(),
    }
}

pub open spec fn item_with(it: ItemView, f: ItemField, t: Option<Seq<char>>) -> ItemView {
    let v = Some(text_or_empty(t));
    match f {
        ItemField::Title => ItemView { title: v, ..it },
        ItemField::Description => ItemView { description: v, ..it },
        ItemField::ContentEncoded => ItemView { content_encoded: v, ..it },
        ItemField::Link => ItemView { link: v, ..it },
        ItemField::Author => ItemView { author: v, ..it },
        ItemField::Category => ItemView { category: v, ..it },
        ItemField::PubDate => ItemView { pub_date: v, ..it },
        ItemField::Guid => ItemView { guid: v, ..it },
    }
}

pub open spec fn channel_with(ch: ChannelView, f: ChannelField, t: Option<Seq<char>>) -> ChannelView {
    let v = Some(text_or_empty(t));
    match f {
        ChannelField::Title => ChannelView { title: v, ..ch },
        ChannelField::Description => ChannelView { description: v, ..ch },
        ChannelField::PubDate => ChannelView { pub_date: v, ..ch },
    }
}

pub open spec fn channel_push(ch: ChannelView, it: ItemView) -> ChannelView {
    ChannelView { items: ch.items.push(it), ..ch }
}

/// The skip primitive: how many events it takes, starting inside an element
/// already `depth` levels below the one being discarded, to consume that
/// element's matching end-tag. `None` when the stream is exhausted first.
pub open spec fn spec_skip(events: Seq<SpecEvent>, depth: nat) -> Option<nat>
    decreases events.len(),
{
    if events.len() == 0 {
        None
    } else {
        let rest = events.drop_first();
        match events.first() {
            SpecEvent::Start(_) => match spec_skip(rest, depth + 1) {
                None => None,
                Some(n) => Some((n + 1) as nat),
            },
            SpecEvent::End => if depth == 0 {
                Some(1)
            } else {
                match spec_skip(rest, (depth - 1) as nat) {
                    None => None,
                    Some(n) => Some((n + 1) as nat),
                }
            },
            _ => match spec_skip(rest, depth) {
                None => None,
                Some(n) => Some((n + 1) as nat),
            },
        }
    }
}

pub proof fn lemma_skip_bounds(events: Seq<SpecEvent>, depth: nat)
    ensures
        spec_skip(events, depth) matches Some(n) ==> 1 <= n <= events.len(),
    decreases events.len(),
{
    if events.len() != 0 {
        let rest = events.drop_first();
        match events.first() {
            SpecEvent::Start(_) => lemma_skip_bounds(rest, depth + 1),
            SpecEvent::End => {
                if depth != 0 {
                    lemma_skip_bounds(rest, (depth - 1) as nat);
                }
            },
            _ => lemma_skip_bounds(rest, depth),
        }
    }
}

/// The text accumulator: positioned just after an element's start-tag, the
/// concatenation of every text and character-data run before that element's
/// matching end-tag, nested children contributing nothing, together with the
/// number of events consumed (the end-tag included). The text is `None` when
/// no run at all occurred. `None` overall when the stream is exhausted first.
pub open spec fn spec_text(events: Seq<SpecEvent>) -> Option<(Option<Seq<char>>, nat)>
    decreases events.len(),
{
    if events.len() == 0 {
        None
    } else {
        let rest = events.drop_first();
        match events.first() {
            SpecEvent::Start(_) => match spec_skip(rest, 0) {
                None => None,
                Some(n) => {
                    proof {
                        lemma_skip_bounds(rest, 0);
                    }
                    match spec_text(rest.skip(n as int)) {
                        None => None,
                        Some(res) => Some((res.0, (1 + n + res.1) as nat)),
                    }
                },
            },
            SpecEvent::End => Some((None, 1)),
            SpecEvent::Text(t) => match spec_text(rest) {
                None => None,
                Some(res) => Some((Some(t + text_or_empty(res.0)), (1 + res.1) as nat)),
            },
            SpecEvent::CData(t) => match spec_text(rest) {
                None => None,
                Some(res) => Some((Some(t + text_or_empty(res.0)), (1 + res.1) as nat)),
            },
            SpecEvent::Other => match spec_text(rest) {
                None => None,
                Some(res) => Some((res.0, (1 + res.1) as nat)),
            },
        }
    }
}

pub proof fn lemma_text_bounds(events: Seq<SpecEvent>)
    ensures
        spec_text(events) matches Some(res) ==> 1 <= res.1 <= events.len(),
    decreases events.len(),
{
    if events.len() != 0 {
        let rest = events.drop_first();
        match events.first() {
            SpecEvent::Start(_) => {
                lemma_skip_bounds(rest, 0);
                if let Some(n) = spec_skip(rest, 0) {
                    lemma_text_bounds(rest.skip(n as int));
                }
            },
            SpecEvent::End => {},
            _ => lemma_text_bounds(rest),
        }
    }
}

/// The entry parser: positioned just after an entry's start-tag, folds every
/// recognized child field into `acc` in document order (a repeated name
/// overwrites: the last occurrence wins), skips unrecognized children, and
/// stops at the entry's own end-tag. `None` when the stream is exhausted
/// first.
pub open spec fn spec_item(events: Seq<SpecEvent>, acc: ItemView) -> Option<(ItemView, nat)>
    decreases events.len(),
{
    if events.len() == 0 {
        None
    } else {
        let rest = events.drop_first();
        match events.first() {
            SpecEvent::Start(name) => match spec_item_field(name) {
                Some(f) => match spec_text(rest) {
                    None => None,
                    Some(tres) => {
                        proof {
                            lemma_text_bounds(rest);
                        }
                        match spec_item(rest.skip(tres.1 as int), item_with(acc, f, tres.0)) {
                            None => None,
                            Some(res) => Some((res.0, (1 + tres.1 + res.1) as nat)),
                        }
                    },
                },
                None => match spec_skip(rest, 0) {
                    None => None,
                    Some(n) => {
                        proof {
                            lemma_skip_bounds(rest, 0);
                        }
                        match spec_item(rest.skip(n as int), acc) {
                            None => None,
                            Some(res) => Some((res.0, (1 + n + res.1) as nat)),
                        }
                    },
                },
            },
            SpecEvent::End => Some((acc, 1)),
            _ => match spec_item(rest, acc) {
                None => None,
                Some(res) => Some((res.0, (1 + res.1) as nat)),
            },
        }
    }
}

pub proof fn lemma_item_bounds(events: Seq<SpecEvent>, acc: ItemView)
    ensures
        spec_item(events, acc) matches Some(res) ==> 1 <= res.1 <= events.len(),
    decreases events.len(),
{
    if events.len() != 0 {
        let rest = events.drop_first();
        match events.first() {
            SpecEvent::Start(name) => match spec_item_field(name) {
                Some(f) => {
                    lemma_text_bounds(rest);
                    if let Some(tres) = spec_text(rest) {
                        lemma_item_bounds(rest.skip(tres.1 as int), item_with(acc, f, tres.0));
                    }
                },
                None => {
                    lemma_skip_bounds(rest, 0);
                    if let Some(n) = spec_skip(rest, 0) {
                        lemma_item_bounds(rest.skip(n as int), acc);
                    }
                },
            },
            SpecEvent::End => {},
            _ => lemma_item_bounds(rest, acc),
        }
    }
}

/// The body phase of the container parser: iterates the container's direct
/// children, folding recognized metadata into `acc` (last occurrence wins),
/// appending each parsed entry to the entry sequence in arrival order,
/// skipping anything unrecognized, and stopping at the container's end-tag.
/// `None` when the stream is exhausted first.
pub open spec fn spec_channel_body(events: Seq<SpecEvent>, acc: ChannelView) -> Option<
    (ChannelView, nat),
>
    decreases events.len(),
{
    if events.len() == 0 {
        None
    } else {
        let rest = events.drop_first();
        match events.first() {
            SpecEvent::Start(name) => match spec_channel_field(name) {
                Some(f) => match spec_text(rest) {
                    None => None,
                    Some(tres) => {
                        proof {
                            lemma_text_bounds(rest);
                        }
                        match spec_channel_body(rest.skip(tres.1 as int), channel_with(acc, f, tres.0)) {
                            None => None,
                            Some(res) => Some((res.0, (1 + tres.1 + res.1) as nat)),
                        }
                    },
                },
                None => if is_item_name(name) {
                    match spec_item(rest, empty_item()) {
                        None => None,
                        Some(ires) => {
                            proof {
                                lemma_item_bounds(rest, empty_item());
                            }
                            match spec_channel_body(rest.skip(ires.1 as int), channel_push(acc, ires.0)) {
                                None => None,
                                Some(res) => Some((res.0, (1 + ires.1 + res.1) as nat)),
                            }
                        },
                    }
                } else {
                    match spec_skip(rest, 0) {
                        None => None,
                        Some(n) => {
                            proof {
                                lemma_skip_bounds(rest, 0);
                            }
                            match spec_channel_body(rest.skip(n as int), acc) {
                                None => None,
                                Some(res) => Some((res.0, (1 + n + res.1) as nat)),
                            }
                        },
                    }
                },
            },
            SpecEvent::End => Some((acc, 1)),
            _ => match spec_channel_body(rest, acc) {
                None => None,
                Some(res) => Some((res.0, (1 + res.1) as nat)),
            },
        }
    }
}

pub proof fn lemma_channel_bounds(events: Seq<SpecEvent>, acc: ChannelView)
    ensures
        spec_channel_body(events, acc) matches Some(res) ==> 1 <= res.1 <= events.len(),
    decreases events.len(),
{
    if events.len() != 0 {
        let rest = events.drop_first();
        match events.first() {
            SpecEvent::Start(name) => {
                if let Some(f) = spec_channel_field(name) {
                    lemma_text_bounds(rest);
                    if let Some(tres) = spec_text(rest) {
                        lemma_channel_bounds(rest.skip(tres.1 as int), channel_with(acc, f, tres.0));
                    }
                } else if is_item_name(name) {
                    lemma_item_bounds(rest, empty_item());
                    if let Some(ires) = spec_item(rest, empty_item()) {
                        lemma_channel_bounds(rest.skip(ires.1 as int), channel_push(acc, ires.0));
                    }
                } else {
                    lemma_skip_bounds(rest, 0);
                    if let Some(n) = spec_skip(rest, 0) {
                        lemma_channel_bounds(rest.skip(n as int), acc);
                    }
                }
            },
            SpecEvent::End => {},
            _ => {
                lemma_channel_bounds(rest, acc);
            },
        }
    }
}

/// The seek phase: how many events it takes to consume everything up to and
/// including the container's start-tag. Other events, start-tags of other
/// names included, are passed over without recursing into them. `None` when
/// the stream is exhausted with no container found.
pub open spec fn spec_seek(events: Seq<SpecEvent>) -> Option<nat>
    decreases events.len(),
{
    if events.len() == 0 {
        None
    } else {
        match events.first() {
            SpecEvent::Start(name) => if is_container_name(name) {
                Some(1)
            } else {
                match spec_seek(events.drop_first()) {
                    None => None,
                    Some(n) => Some((n + 1) as nat),
                }
            },
            _ => match spec_seek(events.drop_first()) {
                None => None,
                Some(n) => Some((n + 1) as nat),
            },
        }
    }
}

pub proof fn lemma_seek_bounds(events: Seq<SpecEvent>)
    ensures
        spec_seek(events) matches Some(n) ==> 1 <= n <= events.len(),
    decreases events.len(),
{
    if events.len() != 0 {
        lemma_seek_bounds(events.drop_first());
    }
}

/// The whole parse of one document: seek the container, then parse its body
/// starting from an empty channel. `None` exactly when the stream is
/// exhausted before the container opens or before it closes: on such a stream
/// no channel at all is produced.
pub open spec fn spec_parse(events: Seq<SpecEvent>) -> Option<ChannelView> {
    match spec_seek(events) {
        None => None,
        Some(n) => match spec_channel_body(events.skip(n as int), empty_channel()) {
            None => None,
            Some(res) => Some(res.0),
        },
    }
}

} // verus!

use vstd::prelude::*;
use crate::events::SpecEvent;
use crate::model::{
    spec_skip, spec_text, spec_item, spec_channel_body, spec_seek, spec_parse, spec_item_field,
    spec_channel_field, is_item_name, item_with, channel_with, channel_push, empty_item,
    empty_channel, lemma_skip_bounds, lemma_text_bounds, lemma_item_bounds, lemma_seek_bounds,
    lemma_channel_bounds,
    ItemField, ItemView, ChannelView,
};

verus! {

/// Skipping is framed: what the skip primitive consumes of a stream does not
/// depend on the events that follow the skipped element.
pub proof fn lemma_skip_frame(s: Seq<SpecEvent>, t: Seq<SpecEvent>, depth: nat)
    requires
        spec_skip(s, depth) is Some,
    ensures
        spec_skip(s + t, depth) == spec_skip(s, depth),
    decreases s.len(),
{
    assert(s.len() > 0);
    let rest = s.drop_first();
    assert((s + t).first() == s.first());
    assert((s + t).drop_first() =~= rest + t);
    match s.first() {
        SpecEvent::Start(_) => {
            lemma_skip_frame(rest, t, depth + 1);
        },
        SpecEvent::End => {
            if depth != 0 {
                lemma_skip_frame(rest, t, (depth - 1) as nat);
            }
        },
        _ => {
            lemma_skip_frame(rest, t, depth);
        },
    }
}

/// A container body with no entry element at its own level. Anything inside
/// skipped children or consumed as field text does not count: only a direct
/// child named like an entry would.
pub open spec fn itemless_body(events: Seq<SpecEvent>) -> bool
    decreases events.len(),
{
    if events.len() == 0 {
        true
    } else {
        let rest = events.drop_first();
        match events.first() {
            SpecEvent::Start(name) => if spec_channel_field(name) is Some {
                match spec_text(rest) {
                    None => true,
                    Some(tres) => {
                        proof {
                            lemma_text_bounds(rest);
                        }
                        itemless_body(rest.skip(tres.1 as int))
                    },
                }
            } else if is_item_name(name) {
                false
            } else {
                match spec_skip(rest, 0) {
                    None => true,
                    Some(n) => {
                        proof {
                            lemma_skip_bounds(rest, 0);
                        }
                        itemless_body(rest.skip(n as int))
                    },
                }
            },
            SpecEvent::End => true,
            _ => itemless_body(rest),
        }
    }
}

/// A well-formed container with no entries parses to a channel whose entry
/// sequence is exactly what it started with — for an empty start, an empty
/// sequence — while its metadata fields are still populated as the body says.
pub proof fn lemma_itemless_yields_no_items(events: Seq<SpecEvent>, acc: ChannelView)
    requires
        itemless_body(events),
    ensures
        spec_channel_body(events, acc) matches Some(res) ==> res.0.items == acc.items,
    decreases events.len(),
{
    if events.len() != 0 {
        let rest = events.drop_first();
        match events.first() {
            SpecEvent::Start(name) => {
                if let Some(f) = spec_channel_field(name) {
                    lemma_text_bounds(rest);
                    if let Some(tres) = spec_text(rest) {
                        lemma_itemless_yields_no_items(
                            rest.skip(tres.1 as int),
                            channel_with(acc, f, tres.0),
                        );
                    }
                } else if is_item_name(name) {
                } else {
                    lemma_skip_bounds(rest, 0);
                    if let Some(n) = spec_skip(rest, 0) {
                        lemma_itemless_yields_no_items(rest.skip(n as int), acc);
                    }
                }
            },
            SpecEvent::End => {},
            _ => {
                lemma_itemless_yields_no_items(rest, acc);
            },
        }
    }
}

/// An unrecognized child of an entry — however deeply its own children nest —
/// is consumed whole and contributes nothing: the entry parses exactly as the
/// remainder alone determines, every field untouched by the skipped subtree.
pub proof fn lemma_unknown_child_ignored(name: Seq<char>, rest: Seq<SpecEvent>, acc: ItemView)
    requires
        spec_item_field(name) is None,
        spec_skip(rest, 0) is Some,
    ensures
        spec_skip(rest, 0) matches Some(n) ==> spec_item(seq![SpecEvent::Start(name)] + rest, acc)
            == (match spec_item(rest.skip(n as int), acc) {
            None => None,
            Some(res) => Some((res.0, (1 + n + res.1) as nat)),
        }),
{
    let ev = seq![SpecEvent::Start(name)] + rest;
    assert(ev.first() == SpecEvent::Start(name));
    assert(ev.drop_first() =~= rest);
    lemma_skip_bounds(rest, 0);
}

/// The concatenation law: an element holding a text run, then a nested
/// unrecognized child, then another text run yields exactly the two runs
/// joined, with nothing contributed by the nested subtree.
pub proof fn lemma_text_concatenation(
    a: Seq<char>,
    name: Seq<char>,
    sub: Seq<SpecEvent>,
    b: Seq<char>,
    tail: Seq<SpecEvent>,
)
    requires
        spec_skip(sub, 0) == Some(sub.len() as nat),
    ensures
        spec_text(
            seq![SpecEvent::Text(a), SpecEvent::Start(name)] + sub + seq![
                SpecEvent::Text(b),
                SpecEvent::End,
            ] + tail,
        ) == Some((Some(a + b), (4 + sub.len()) as nat)),
{
    let ev3 = seq![SpecEvent::Text(b), SpecEvent::End] + tail;
    let ev4 = seq![SpecEvent::End] + tail;
    let ev2 = sub + ev3;
    let ev1 = seq![SpecEvent::Start(name)] + ev2;
    let ev = seq![SpecEvent::Text(a), SpecEvent::Start(name)] + sub + seq![
        SpecEvent::Text(b),
        SpecEvent::End,
    ] + tail;
    assert(ev4.first() == SpecEvent::End);
    assert(spec_text(ev4) == Some((None::<Seq<char>>, 1nat)));
    assert(ev3.first() == SpecEvent::Text(b));
    assert(ev3.drop_first() =~= ev4);
    assert(b + Seq::<char>::empty() =~= b);
    assert(spec_text(ev3) == Some((Some(b), 2nat)));
    lemma_skip_frame(sub, ev3, 0);
    assert(spec_skip(ev2, 0) == Some(sub.len() as nat));
    assert(ev2.skip(sub.len() as int) =~= ev3);
    assert(ev1.first() == SpecEvent::Start(name));
    assert(ev1.drop_first() =~= ev2);
    assert(spec_text(ev1) == Some((Some(b), (3 + sub.len()) as nat)));
    assert(ev.first() == SpecEvent::Text(a));
    assert(ev.drop_first() =~= ev1);
    assert(spec_text(ev) == Some((Some(a + b), (4 + sub.len()) as nat)));
}

/// Once a field of an entry is present, everything that follows inside the
/// entry keeps it present: further events may overwrite its text, never
/// remove it.
pub proof fn lemma_present_stays_present(events: Seq<SpecEvent>, acc: ItemView)
    requires
        acc.title is Some,
    ensures
        spec_item(events, acc) matches Some(res) ==> res.0.title is Some,
    decreases events.len(),
{
    if events.len() != 0 {
        let rest = events.drop_first();
        match events.first() {
            SpecEvent::Start(name) => {
                match spec_item_field(name) {
                    Some(f) => {
                        lemma_text_bounds(rest);
                        if let Some(tres) = spec_text(rest) {
                            lemma_present_stays_present(
                                rest.skip(tres.1 as int),
                                item_with(acc, f, tres.0),
                            );
                        }
                    },
                    None => {
                        lemma_skip_bounds(rest, 0);
                        if let Some(n) = spec_skip(rest, 0) {
                            lemma_present_stays_present(rest.skip(n as int), acc);
                        }
                    },
                }
            },
            SpecEvent::End => {},
            _ => {
                lemma_present_stays_present(rest, acc);
            },
        }
    }
}

/// Absence against emptiness. An entry whose span opens with an empty title
/// element carries the title as present — the empty string — from then on,
/// whatever else follows; an entry whose span closes at once leaves every
/// field exactly as absent as it began. The two outcomes are distinguishable.
pub proof fn lemma_empty_element_vs_absent(tail: Seq<SpecEvent>, acc: ItemView)
    ensures
        spec_item(seq![SpecEvent::Start("title"@), SpecEvent::End] + tail, acc) == (match spec_item(
            tail,
            item_with(acc, ItemField::Title, None),
        ) {
            None => None,
            Some(res) => Some((res.0, (2 + res.1) as nat)),
        }),
        item_with(acc, ItemField::Title, None).title == Some(Seq::<char>::empty()),
        spec_item(seq![SpecEvent::Start("title"@), SpecEvent::End] + tail, acc) matches Some(res)
            ==> res.0.title is Some,
        spec_item(seq![SpecEvent::End], acc) == Some((acc, 1nat)),
{
    let ev = seq![SpecEvent::Start("title"@), SpecEvent::End] + tail;
    let ev1 = seq![SpecEvent::End] + tail;
    assert(ev.first() == SpecEvent::Start("title"@));
    assert(ev.drop_first() =~= ev1);
    assert(spec_item_field("title"@) == Some(ItemField::Title));
    assert(ev1.first() == SpecEvent::End);
    assert(spec_text(ev1) == Some((None::<Seq<char>>, 1nat)));
    assert(ev1.skip(1) =~= tail);
    let acc2 = item_with(acc, ItemField::Title, None);
    lemma_present_stays_present(tail, acc2);
    let one = seq![SpecEvent::End];
    assert(one.first() == SpecEvent::End);
}

/// The truncation law: a stream that ends before any closing tag — before
/// the container, an entry, or a field element is ever closed — fails every
/// layer of the parse with a stream error; no partial value is produced.
pub proof fn lemma_truncated_stream_fails(events: Seq<SpecEvent>, acc: ItemView, ch: ChannelView)
    requires
        forall|i: int| 0 <= i < events.len() ==> !((#[trigger] events[i]) is End),
    ensures
        forall|d: nat| (#[trigger] spec_skip(events, d)) is None,
        spec_text(events) is None,
        spec_item(events, acc) is None,
        spec_channel_body(events, ch) is None,
        spec_parse(events) is None,
    decreases events.len(),
{
    if events.len() != 0 {
        let rest = events.drop_first();
        assert forall|i: int| 0 <= i < rest.len() implies !((#[trigger] rest[i]) is End) by {
            assert(rest[i] == events[i + 1]);
        }
        assert(!(events.first() is End)) by {
            assert(events.first() == events[0]);
        }
        lemma_truncated_stream_fails(rest, acc, ch);
        lemma_truncated_stream_fails(rest, empty_item(), ch);
        match events.first() {
            SpecEvent::Start(name) => {
                assert forall|d: nat| (#[trigger] spec_skip(events, d)) is None by {
                    assert(spec_skip(rest, d + 1) is None);
                }
            },
            SpecEvent::End => {
                assert(false);
            },
            _ => {
                assert forall|d: nat| (#[trigger] spec_skip(events, d)) is None by {
                    assert(spec_skip(rest, d) is None);
                }
            },
        }
    }
    match spec_seek(events) {
        None => {},
        Some(n) => {
            lemma_seek_bounds(events);
            let after = events.skip(n as int);
            assert forall|i: int| 0 <= i < after.len() implies !((#[trigger] after[i]) is End) by {
                assert(after[i] == events[i + n]);
            }
            lemma_truncated_stream_fails(after, acc, empty_channel());
        },
    }
}

/// Order preservation, one step: a container body that opens an entry
/// element parses that entry and appends it at the end of the sequence
/// gathered so far, then goes on exactly as the remainder determines.
pub proof fn lemma_entry_appended(rest: Seq<SpecEvent>, acc: ChannelView)
    requires
        spec_item(rest, empty_item()) is Some,
    ensures
        spec_item(rest, empty_item()) matches Some(ires) ==> spec_channel_body(
            seq![SpecEvent::Start("item"@)] + rest,
            acc,
        ) == (match spec_channel_body(rest.skip(ires.1 as int), channel_push(acc, ires.0)) {
            None => None,
            Some(res) => Some((res.0, (1 + ires.1 + res.1) as nat)),
        }),
{
    reveal_strlit("item");
    reveal_strlit("title");
    reveal_strlit("description");
    reveal_strlit("pubDate");
    assert("item"@.len() == 4);
    assert("title"@.len() == 5);
    assert("description"@.len() == 11);
    assert("pubDate"@.len() == 7);
    assert(spec_channel_field("item"@) is None);
    assert(is_item_name("item"@));
    let ev = seq![SpecEvent::Start("item"@)] + rest;
    assert(ev.first() == SpecEvent::Start("item"@));
    assert(ev.drop_first() =~= rest);
    lemma_item_bounds(rest, empty_item());
}

/// Order preservation, the other half: parsing a container body never
/// disturbs the entries gathered before it ran — they stay a prefix, in
/// their order, of whatever the finished channel holds.
pub proof fn lemma_earlier_entries_kept(events: Seq<SpecEvent>, acc: ChannelView)
    ensures
        spec_channel_body(events, acc) matches Some(res) ==> res.0.items.len() >= acc.items.len()
            && res.0.items.take(acc.items.len() as int) == acc.items,
    decreases events.len(),
{
    if events.len() != 0 {
        let rest = events.drop_first();
        match events.first() {
            SpecEvent::Start(name) => {
                if let Some(f) = spec_channel_field(name) {
                    lemma_text_bounds(rest);
                    if let Some(tres) = spec_text(rest) {
                        lemma_earlier_entries_kept(
                            rest.skip(tres.1 as int),
                            channel_with(acc, f, tres.0),
                        );
                    }
                } else if is_item_name(name) {
                    lemma_item_bounds(rest, empty_item());
                    if let Some(ires) = spec_item(rest, empty_item()) {
                        let acc2 = channel_push(acc, ires.0);
                        lemma_earlier_entries_kept(rest.skip(ires.1 as int), acc2);
                        if let Some(res) = spec_channel_body(rest.skip(ires.1 as int), acc2) {
                            assert(acc2.items.take(acc.items.len() as int) =~= acc.items);
                            assert(res.0.items.take(acc.items.len() as int) =~= acc2.items.take(
                                acc.items.len() as int,
                            ));
                        }
                    }
                } else {
                    lemma_skip_bounds(rest, 0);
                    if let Some(n) = spec_skip(rest, 0) {
                        lemma_earlier_entries_kept(rest.skip(n as int), acc);
                    }
                }
            },
            SpecEvent::End => {
                assert(acc.items.take(acc.items.len() as int) =~= acc.items);
            },
            _ => {
                lemma_earlier_entries_kept(rest, acc);
            },
        }
    }
}

/// The complement of the truncation law: success always ends at a closing
/// tag. Whatever a layer of the parser consumed on a successful run, its
/// last consumed event is the end-tag that closed the element — the
/// container, an entry, or a field — so no success can come out of a stream
/// that was cut off before that closing tag arrived.
#[verifier::rlimit(60)]
pub proof fn lemma_success_consumes_closing(events: Seq<SpecEvent>, acc: ItemView, ch: ChannelView)
    ensures
        forall|d: nat|
            #[trigger] spec_skip(events, d) matches Some(n) ==> events[n as int - 1] is End,
        spec_text(events) matches Some(res) ==> events[res.1 as int - 1] is End,
        spec_item(events, acc) matches Some(res) ==> events[res.1 as int - 1] is End,
        spec_channel_body(events, ch) matches Some(res) ==> events[res.1 as int - 1] is End,
    decreases events.len(),
{
    if events.len() != 0 {
        let rest = events.drop_first();
        lemma_success_consumes_closing(rest, acc, ch);
        assert forall|d: nat|
            #[trigger] spec_skip(events, d) matches Some(n) ==> events[n as int - 1] is End by {
            match events.first() {
                SpecEvent::Start(_) => {
                    lemma_skip_bounds(rest, d + 1);
                    if let Some(m) = spec_skip(rest, d + 1) {
                        assert(events[m as int] == rest[m as int - 1]);
                    }
                },
                SpecEvent::End => {
                    if d != 0 {
                        lemma_skip_bounds(rest, (d - 1) as nat);
                        if let Some(m) = spec_skip(rest, (d - 1) as nat) {
                            assert(events[m as int] == rest[m as int - 1]);
                        }
                    }
                },
                _ => {
                    lemma_skip_bounds(rest, d);
                    if let Some(m) = spec_skip(rest, d) {
                        assert(events[m as int] == rest[m as int - 1]);
                    }
                },
            }
        }
        match events.first() {
            SpecEvent::Start(name) => {
                lemma_skip_bounds(rest, 0);
                if let Some(n) = spec_skip(rest, 0) {
                    let suf = rest.skip(n as int);
                    lemma_success_consumes_closing(suf, acc, ch);
                    lemma_text_bounds(suf);
                    if let Some(tres) = spec_text(suf) {
                        assert(events[(1 + n + tres.1) as int - 1] == suf[tres.1 as int - 1]);
                    }
                    lemma_item_bounds(suf, acc);
                    if let Some(res) = spec_item(suf, acc) {
                        assert(events[(1 + n + res.1) as int - 1] == suf[res.1 as int - 1]);
                    }
                    lemma_channel_bounds(suf, ch);
                    if let Some(res) = spec_channel_body(suf, ch) {
                        assert(events[(1 + n + res.1) as int - 1] == suf[res.1 as int - 1]);
                    }
                }
                lemma_text_bounds(rest);
                if let Some(tres) = spec_text(rest) {
                    let suf = rest.skip(tres.1 as int);
                    if let Some(f) = spec_item_field(name) {
                        let acc2 = item_with(acc, f, tres.0);
                        lemma_success_consumes_closing(suf, acc2, ch);
                        lemma_item_bounds(suf, acc2);
                        if let Some(res) = spec_item(suf, acc2) {
                            assert(events[(1 + tres.1 + res.1) as int - 1] == suf[res.1 as int
                                - 1]);
                        }
                    }
                    if let Some(f) = spec_channel_field(name) {
                        let ch2 = channel_with(ch, f, tres.0);
                        lemma_success_consumes_closing(suf, acc, ch2);
                        lemma_channel_bounds(suf, ch2);
                        if let Some(res) = spec_channel_body(suf, ch2) {
                            assert(events[(1 + tres.1 + res.1) as int - 1] == suf[res.1 as int
                                - 1]);
                        }
                    }
                }
                if is_item_name(name) {
                    lemma_item_bounds(rest, empty_item());
                    if let Some(ires) = spec_item(rest, empty_item()) {
                        let suf = rest.skip(ires.1 as int);
                        let ch2 = channel_push(ch, ires.0);
                        lemma_success_consumes_closing(suf, acc, ch2);
                        lemma_channel_bounds(suf, ch2);
                        if let Some(res) = spec_channel_body(suf, ch2) {
                            assert(events[(1 + ires.1 + res.1) as int - 1] == suf[res.1 as int
                                - 1]);
                        }
                    }
                }
            },
            SpecEvent::End => {},
            _ => {
                lemma_text_bounds(rest);
                if let Some(tres) = spec_text(rest) {
                    assert(events[(1 + tres.1) as int - 1] == rest[tres.1 as int - 1]);
                }
                lemma_item_bounds(rest, acc);
                if let Some(res) = spec_item(rest, acc) {
                    assert(events[(1 + res.1) as int - 1] == rest[res.1 as int - 1]);
                }
                lemma_channel_bounds(rest, ch);
                if let Some(res) = spec_channel_body(rest, ch) {
                    assert(events[(1 + res.1) as int - 1] == rest[res.1 as int - 1]);
                }
            },
        }
    }
}

/// The entries that one pass over a container body gathers, in the order of
/// their start-tags. Only the successful pass is meaningful: on a stream the
/// body parser rejects, the tail of this sequence is cut short.
pub open spec fn spec_body_items(events: Seq<SpecEvent>) -> Seq<ItemView>
    decreases events.len(),
{
    if events.len() == 0 {
        Seq::empty()
    } else {
        let rest = events.drop_first();
        match events.first() {
            SpecEvent::Start(name) => if spec_channel_field(name) is Some {
                match spec_text(rest) {
                    None => Seq::empty(),
                    Some(tres) => {
                        proof {
                            lemma_text_bounds(rest);
                        }
                        spec_body_items(rest.skip(tres.1 as int))
                    },
                }
            } else if is_item_name(name) {
                match spec_item(rest, empty_item()) {
                    None => Seq::empty(),
                    Some(ires) => {
                        proof {
                            lemma_item_bounds(rest, empty_item());
                        }
                        seq![ires.0] + spec_body_items(rest.skip(ires.1 as int))
                    },
                }
            } else {
                match spec_skip(rest, 0) {
                    None => Seq::empty(),
                    Some(n) => {
                        proof {
                            lemma_skip_bounds(rest, 0);
                        }
                        spec_body_items(rest.skip(n as int))
                    },
                }
            },
            SpecEvent::End => Seq::empty(),
            _ => spec_body_items(rest),
        }
    }
}

/// Order preservation in full: a successful pass over a container body hands
/// back exactly the entries already gathered followed by the body's entries
/// in document order — so the k-th entry element of the body stands at the
/// k-th place after them, duplicates kept, nothing reordered or dropped.
pub proof fn lemma_items_in_document_order(events: Seq<SpecEvent>, acc: ChannelView)
    ensures
        spec_channel_body(events, acc) matches Some(res) ==> res.0.items == acc.items
            + spec_body_items(events),
    decreases events.len(),
{
    if events.len() == 0 {
    } else {
        let rest = events.drop_first();
        match events.first() {
            SpecEvent::Start(name) => {
                if let Some(f) = spec_channel_field(name) {
                    lemma_text_bounds(rest);
                    if let Some(tres) = spec_text(rest) {
                        lemma_items_in_document_order(
                            rest.skip(tres.1 as int),
                            channel_with(acc, f, tres.0),
                        );
                    }
                } else if is_item_name(name) {
                    lemma_item_bounds(rest, empty_item());
                    if let Some(ires) = spec_item(rest, empty_item()) {
                        let suf = rest.skip(ires.1 as int);
                        let acc2 = channel_push(acc, ires.0);
                        lemma_items_in_document_order(suf, acc2);
                        if let Some(res) = spec_channel_body(suf, acc2) {
                            assert(acc.items.push(ires.0) + spec_body_items(suf) =~= acc.items + (
                            seq![ires.0] + spec_body_items(suf)));
                        }
                    }
                } else {
                    lemma_skip_bounds(rest, 0);
                    if let Some(n) = spec_skip(rest, 0) {
                        lemma_items_in_document_order(rest.skip(n as int), acc);
                    }
                }
            },
            SpecEvent::End => {
                if spec_channel_body(events, acc) is Some {
                    assert(acc.items + spec_body_items(events) =~= acc.items);
                }
            },
            _ => {
                lemma_items_in_document_order(rest, acc);
            },
        }
    }
}

/// Skipping is framed, exactly: what the skip primitive consumes it reads
/// alone — events past the consumed span may be replaced freely.
proof fn lemma_skip_take_frame(s: Seq<SpecEvent>, t: Seq<SpecEvent>, d: nat)
    requires
        spec_skip(s, d) is Some,
    ensures
        spec_skip(s, d) matches Some(n) ==> spec_skip(s.take(n as int) + t, d) == Some(n),
    decreases s.len(),
{
    if let Some(n) = spec_skip(s, d) {
        lemma_skip_bounds(s, d);
        let rest = s.drop_first();
        let w = s.take(n as int) + t;
        assert(w.first() == s.first());
        match s.first() {
            SpecEvent::Start(_) => {
                if let Some(m) = spec_skip(rest, d + 1) {
                    lemma_skip_bounds(rest, d + 1);
                    lemma_skip_take_frame(rest, t, d + 1);
                    assert(w.drop_first() =~= rest.take(m as int) + t);
                }
            },
            SpecEvent::End => {
                if d != 0 {
                    if let Some(m) = spec_skip(rest, (d - 1) as nat) {
                        lemma_skip_bounds(rest, (d - 1) as nat);
                        lemma_skip_take_frame(rest, t, (d - 1) as nat);
                        assert(w.drop_first() =~= rest.take(m as int) + t);
                    }
                }
            },
            _ => {
                if let Some(m) = spec_skip(rest, d) {
                    lemma_skip_bounds(rest, d);
                    lemma_skip_take_frame(rest, t, d);
                    assert(w.drop_first() =~= rest.take(m as int) + t);
                }
            },
        }
    }
}

/// The text accumulator is framed, exactly: its result is read off the span
/// it consumes — events past that span may be replaced freely.
proof fn lemma_text_take_frame(s: Seq<SpecEvent>, t: Seq<SpecEvent>)
    requires
        spec_text(s) is Some,
    ensures
        spec_text(s) matches Some(res) ==> spec_text(s.take(res.1 as int) + t) == Some(res),
    decreases s.len(),
{
    if let Some(res) = spec_text(s) {
        lemma_text_bounds(s);
        let rest = s.drop_first();
        let w = s.take(res.1 as int) + t;
        assert(w.first() == s.first());
        match s.first() {
            SpecEvent::Start(_) => {
                if let Some(n) = spec_skip(rest, 0) {
                    lemma_skip_bounds(rest, 0);
                    let suf = rest.skip(n as int);
                    if let Some(res2) = spec_text(suf) {
                        lemma_text_bounds(suf);
                        lemma_skip_take_frame(rest, suf.take(res2.1 as int) + t, 0);
                        assert(w.drop_first() =~= rest.take(n as int) + (suf.take(res2.1 as int)
                            + t));
                        assert(w.drop_first().skip(n as int) =~= suf.take(res2.1 as int) + t);
                        lemma_text_take_frame(suf, t);
                    }
                }
            },
            SpecEvent::End => {},
            SpecEvent::Text(_) => {
                if let Some(res2) = spec_text(rest) {
                    lemma_text_bounds(rest);
                    lemma_text_take_frame(rest, t);
                    assert(w.drop_first() =~= rest.take(res2.1 as int) + t);
                }
            },
            SpecEvent::CData(_) => {
                if let Some(res2) = spec_text(rest) {
                    lemma_text_bounds(rest);
                    lemma_text_take_frame(rest, t);
                    assert(w.drop_first() =~= rest.take(res2.1 as int) + t);
                }
            },
            SpecEvent::Other => {
                if let Some(res2) = spec_text(rest) {
                    lemma_text_bounds(rest);
                    lemma_text_take_frame(rest, t);
                    assert(w.drop_first() =~= rest.take(res2.1 as int) + t);
                }
            },
        }
    }
}

/// The positions of an entry span at which the entry parser itself stands:
/// the start, and every boundary between two of the entry's own children —
/// never inside a field's span, a skipped subtree, or past the entry's end.
pub open spec fn item_level_at(events: Seq<SpecEvent>, k: int) -> bool
    decreases events.len(),
{
    if k == 0 {
        true
    } else if events.len() == 0 {
        false
    } else {
        let rest = events.drop_first();
        match events.first() {
            SpecEvent::Start(name) => match spec_item_field(name) {
                Some(_) => match spec_text(rest) {
                    None => false,
                    Some(tres) => {
                        proof {
                            lemma_text_bounds(rest);
                        }
                        1 + tres.1 <= k && item_level_at(rest.skip(tres.1 as int), k - 1 - tres.1)
                    },
                },
                None => match spec_skip(rest, 0) {
                    None => false,
                    Some(n) => {
                        proof {
                            lemma_skip_bounds(rest, 0);
                        }
                        1 + n <= k && item_level_at(rest.skip(n as int), k - 1 - n)
                    },
                },
            },
            SpecEvent::End => false,
            _ => item_level_at(rest, k - 1),
        }
    }
}

/// The unknown-child law at any position: insert one unrecognized child —
/// its subtree self-contained, nested however deeply — at any boundary
/// between an entry's own children, and the entry parses to exactly the same
/// record, every field as it would be had the subtree been absent; a failing
/// span keeps failing. Only the count of consumed events grows, by the
/// subtree's size.
#[verifier::rlimit(100)]
pub proof fn lemma_unknown_child_ignored_anywhere(
    events: Seq<SpecEvent>,
    k: int,
    name: Seq<char>,
    sub: Seq<SpecEvent>,
    acc: ItemView,
)
    requires
        spec_item_field(name) is None,
        spec_skip(sub, 0) == Some(sub.len() as nat),
        0 <= k <= events.len(),
        item_level_at(events, k),
    ensures
        ({
            let with = events.take(k) + (seq![SpecEvent::Start(name)] + sub) + events.skip(k);
            match spec_item(events, acc) {
                None => spec_item(with, acc) is None,
                Some(res) => spec_item(with, acc) == Some(
                    (res.0, (res.1 + 1 + sub.len()) as nat),
                ),
            }
        }),
    decreases events.len(),
{
    let ins = seq![SpecEvent::Start(name)] + sub;
    let with = events.take(k) + ins + events.skip(k);
    lemma_skip_bounds(sub, 0);
    if k == 0 {
        assert(events.take(0) =~= Seq::<SpecEvent>::empty());
        assert(events.skip(0) =~= events);
        assert(with =~= seq![SpecEvent::Start(name)] + (sub + events));
        let w = seq![SpecEvent::Start(name)] + (sub + events);
        assert(w.first() == SpecEvent::Start(name));
        assert(w.drop_first() =~= sub + events);
        lemma_skip_frame(sub, events, 0);
        assert((sub + events).skip(sub.len() as int) =~= events);
    } else {
        let rest = events.drop_first();
        assert(with.first() == events.first());
        match events.first() {
            SpecEvent::Start(fname) => {
                match spec_item_field(fname) {
                    Some(f) => {
                        if let Some(tres) = spec_text(rest) {
                            lemma_text_bounds(rest);
                            let suf = rest.skip(tres.1 as int);
                            let k2 = k - 1 - tres.1;
                            assert(with.drop_first() =~= rest.take(k - 1) + ins + rest.skip(
                                k - 1,
                            ));
                            lemma_text_take_frame(
                                rest,
                                suf.take(k2) + ins + rest.skip(k - 1),
                            );
                            assert(rest.take(tres.1 as int) + (suf.take(k2) + ins + rest.skip(
                                k - 1,
                            )) =~= with.drop_first());
                            assert(with.drop_first().skip(tres.1 as int) =~= suf.take(k2) + ins
                                + suf.skip(k2));
                            lemma_unknown_child_ignored_anywhere(
                                suf,
                                k2,
                                name,
                                sub,
                                item_with(acc, f, tres.0),
                            );
                        }
                    },
                    None => {
                        if let Some(n) = spec_skip(rest, 0) {
                            lemma_skip_bounds(rest, 0);
                            let suf = rest.skip(n as int);
                            let k2 = k - 1 - n;
                            assert(with.drop_first() =~= rest.take(k - 1) + ins + rest.skip(
                                k - 1,
                            ));
                            lemma_skip_take_frame(
                                rest,
                                suf.take(k2) + ins + rest.skip(k - 1),
                                0,
                            );
                            assert(rest.take(n as int) + (suf.take(k2) + ins + rest.skip(k - 1))
                                =~= with.drop_first());
                            assert(with.drop_first().skip(n as int) =~= suf.take(k2) + ins
                                + suf.skip(k2));
                            lemma_unknown_child_ignored_anywhere(suf, k2, name, sub, acc);
                        }
                    },
                }
            },
            SpecEvent::End => {
                assert(false);
            },
            _ => {
                assert(with.drop_first() =~= rest.take(k - 1) + ins + rest.skip(k - 1));
                lemma_unknown_child_ignored_anywhere(rest, k - 1, name, sub, acc);
            },
        }
    }
}

} // verus!

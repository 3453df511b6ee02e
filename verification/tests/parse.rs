use reeses::parser::Channel;
use reeses::source::{EventSource, ParseError};

fn parse(doc: &str) -> Result<Channel, ParseError> {
    let mut src = EventSource::from_bytes(doc.as_bytes().to_vec());
    Channel::from_reader(&mut src)
}

#[test]
fn empty_container_yields_empty_items() {
    let ch = parse(
        "<rss><channel><title>T</title><description>D</description><pubDate>P</pubDate></channel></rss>",
    )
    .unwrap();
    assert_eq!(ch.title, Some("T".to_string()));
    assert_eq!(ch.description, Some("D".to_string()));
    assert_eq!(ch.pub_date, Some("P".to_string()));
    assert_eq!(ch.items.len(), 0);
}

#[test]
fn bare_container_yields_all_absent() {
    let ch = parse("<rss><channel></channel></rss>").unwrap();
    assert_eq!(ch.title, None);
    assert_eq!(ch.description, None);
    assert_eq!(ch.pub_date, None);
    assert_eq!(ch.items.len(), 0);
}

#[test]
fn end_to_end_item_with_unknown_child() {
    let ch = parse(
        "<rss><channel><item><title>A</title><category>X</category><unknown><deep/></unknown></item></channel></rss>",
    )
    .unwrap();
    assert_eq!(ch.items.len(), 1);
    let it = &ch.items[0];
    assert_eq!(it.title, Some("A".to_string()));
    assert_eq!(it.category, Some("X".to_string()));
    assert_eq!(it.description, None);
    assert_eq!(it.content_encoded, None);
    assert_eq!(it.link, None);
    assert_eq!(it.author, None);
    assert_eq!(it.pub_date, None);
    assert_eq!(it.guid, None);
}

#[test]
fn unknown_children_contribute_nothing() {
    let ch = parse(
        "<rss><channel><item><weird><nested><more/>text</nested></weird></item></channel></rss>",
    )
    .unwrap();
    assert_eq!(ch.items.len(), 1);
    let it = &ch.items[0];
    assert_eq!(it.title, None);
    assert_eq!(it.description, None);
    assert_eq!(it.content_encoded, None);
    assert_eq!(it.link, None);
    assert_eq!(it.author, None);
    assert_eq!(it.category, None);
    assert_eq!(it.pub_date, None);
    assert_eq!(it.guid, None);
}

#[test]
fn text_around_nested_child_concatenates() {
    let ch =
        parse("<rss><channel><title>A<unknown><deep>x</deep></unknown>B</title></channel></rss>")
            .unwrap();
    assert_eq!(ch.title, Some("AB".to_string()));
}

#[test]
fn empty_element_is_present_missing_is_absent() {
    let ch =
        parse("<rss><channel><item><title></title></item><item></item></channel></rss>").unwrap();
    assert_eq!(ch.items.len(), 2);
    assert_eq!(ch.items[0].title, Some(String::new()));
    assert_eq!(ch.items[1].title, None);
}

#[test]
fn self_closing_field_is_present_and_empty() {
    let ch = parse("<rss><channel><item><title/></item></channel></rss>").unwrap();
    assert_eq!(ch.items.len(), 1);
    assert_eq!(ch.items[0].title, Some(String::new()));
}

#[test]
fn truncated_before_container_end_fails() {
    let r = parse("<rss><channel><title>T</title>");
    assert!(matches!(r, Err(ParseError::Stream)));
}

#[test]
fn truncated_inside_item_fails() {
    let r = parse("<rss><channel><item><title>A");
    assert!(matches!(r, Err(ParseError::Stream)));
}

#[test]
fn truncated_inside_field_fails() {
    let r = parse("<rss><channel><title>abc");
    assert!(matches!(r, Err(ParseError::Stream)));
}

#[test]
fn missing_container_fails() {
    let r = parse("<rss><other>stuff</other></rss>");
    assert!(matches!(r, Err(ParseError::Stream)));
}

#[test]
fn empty_input_fails() {
    let r = parse("");
    assert!(matches!(r, Err(ParseError::Stream)));
}

#[test]
fn items_keep_document_order() {
    let ch = parse(
        "<rss><channel><item><title>One</title></item><item><title>Two</title></item><item><title>Three</title></item></channel></rss>",
    )
    .unwrap();
    assert_eq!(ch.items.len(), 3);
    assert_eq!(ch.items[0].title, Some("One".to_string()));
    assert_eq!(ch.items[1].title, Some("Two".to_string()));
    assert_eq!(ch.items[2].title, Some("Three".to_string()));
}

#[test]
fn repeated_metadata_last_occurrence_wins() {
    let ch =
        parse("<rss><channel><title>First</title><title>Second</title></channel></rss>").unwrap();
    assert_eq!(ch.title, Some("Second".to_string()));
}

#[test]
fn all_item_fields_populate() {
    let ch = parse(
        "<rss><channel><item>\
         <title>t</title><description>d</description><content:encoded>c</content:encoded>\
         <link>l</link><author>a</author><category>g</category><pubDate>p</pubDate><guid>u</guid>\
         </item></channel></rss>",
    )
    .unwrap();
    let it = &ch.items[0];
    assert_eq!(it.title, Some("t".to_string()));
    assert_eq!(it.description, Some("d".to_string()));
    assert_eq!(it.content_encoded, Some("c".to_string()));
    assert_eq!(it.link, Some("l".to_string()));
    assert_eq!(it.author, Some("a".to_string()));
    assert_eq!(it.category, Some("g".to_string()));
    assert_eq!(it.pub_date, Some("p".to_string()));
    assert_eq!(it.guid, Some("u".to_string()));
}

#[test]
fn entities_are_unescaped() {
    let ch = parse("<rss><channel><title>A&amp;B</title></channel></rss>").unwrap();
    assert_eq!(ch.title, Some("A&B".to_string()));
}

#[test]
fn cdata_is_taken_literally() {
    let ch = parse("<rss><channel><title><![CDATA[A&B]]></title></channel></rss>").unwrap();
    assert_eq!(ch.title, Some("A&B".to_string()));
}

#[test]
fn preamble_and_unrelated_tags_are_passed_over() {
    let ch = parse(
        "<?xml version=\"1.0\"?><!-- a feed --><rss version=\"2.0\"><channel><title>T</title></channel></rss>",
    )
    .unwrap();
    assert_eq!(ch.title, Some("T".to_string()));
}

#[test]
fn unknown_channel_child_is_skipped() {
    let ch = parse(
        "<rss><channel><image><url>x</url></image><title>T</title></channel></rss>",
    )
    .unwrap();
    assert_eq!(ch.title, Some("T".to_string()));
    assert_eq!(ch.items.len(), 0);
}

#[test]
fn same_bytes_give_the_same_outcome() {
    let doc = "<rss><channel><title>T</title><item><title>A</title></item></channel></rss>";
    let a = parse(doc).unwrap();
    let b = parse(doc).unwrap();
    assert_eq!(a.title, b.title);
    assert_eq!(a.description, b.description);
    assert_eq!(a.pub_date, b.pub_date);
    assert_eq!(a.items.len(), b.items.len());
    assert_eq!(a.items[0].title, b.items[0].title);
}

#[test]
fn mismatched_end_tag_is_a_source_error() {
    let r = parse("<rss><channel><title>T</bad></title></channel></rss>");
    assert!(matches!(r, Err(ParseError::Source(_))));
}

#[test]
fn undecodable_text_is_a_decode_error() {
    let mut doc: Vec<u8> = Vec::new();
    doc.extend_from_slice(b"<rss><channel><title>");
    doc.push(0xff);
    doc.extend_from_slice(b"</title></channel></rss>");
    let mut src = EventSource::from_bytes(doc);
    let r = Channel::from_reader(&mut src);
    assert!(matches!(r, Err(ParseError::Decode(_))));
}

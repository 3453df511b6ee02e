use reeses::urls::{filter_categories, get_categories, group_urls};

#[test]
fn line_with_category_splits_into_both_tokens() {
    let (url, cat) = get_categories("https://example.com/feed linux".to_string());
    assert_eq!(url, "https://example.com/feed".to_string());
    assert_eq!(cat, Some("linux".to_string()));
}

#[test]
fn line_without_category_has_none() {
    let (url, cat) = get_categories("https://example.com/other".to_string());
    assert_eq!(url, "https://example.com/other".to_string());
    assert_eq!(cat, None);
}

#[test]
fn tabs_and_extra_spaces_separate_tokens() {
    let (url, cat) = get_categories("  https://a.example\t news  ".to_string());
    assert_eq!(url, "https://a.example".to_string());
    assert_eq!(cat, Some("news".to_string()));
}

#[test]
fn text_past_the_second_token_is_ignored() {
    let (url, cat) = get_categories("https://a.example news extra words".to_string());
    assert_eq!(url, "https://a.example".to_string());
    assert_eq!(cat, Some("news".to_string()));
}

#[test]
fn any_unicode_whitespace_separates_tokens() {
    let (url, cat) = get_categories("a\rb".to_string());
    assert_eq!(url, "a".to_string());
    assert_eq!(cat, Some("b".to_string()));
    let (url2, cat2) = get_categories("https://a.example\u{3000}news".to_string());
    assert_eq!(url2, "https://a.example".to_string());
    assert_eq!(cat2, Some("news".to_string()));
}

#[test]
fn grouping_honours_labels_comments_and_blanks() {
    let lines: Vec<String> = vec![
        "# feeds".to_string(),
        "".to_string(),
        "https://a.example linux".to_string(),
        "https://b.example".to_string(),
        "https://c.example linux".to_string(),
    ];
    let groups = group_urls(&lines);
    assert_eq!(groups.len(), 2);
    assert_eq!(groups[0].0, "linux".to_string());
    assert_eq!(
        groups[0].1,
        vec!["https://a.example".to_string(), "https://c.example".to_string()]
    );
    assert_eq!(groups[1].0, "no category".to_string());
    assert_eq!(groups[1].1, vec!["https://b.example".to_string()]);
}

#[test]
fn filter_keeps_wanted_groups_only() {
    let lines: Vec<String> = vec![
        "https://example.com/feed linux".to_string(),
        "https://example.com/other".to_string(),
    ];
    let groups = group_urls(&lines);
    let kept = filter_categories(groups, vec!["linux".to_string()]);
    assert_eq!(kept.len(), 1);
    assert_eq!(kept[0].0, "linux".to_string());
    assert_eq!(kept[0].1, vec!["https://example.com/feed".to_string()]);
}

#[test]
fn filter_with_no_match_keeps_nothing() {
    let lines: Vec<String> = vec!["https://example.com/other".to_string()];
    let groups = group_urls(&lines);
    let kept = filter_categories(groups, vec!["linux".to_string()]);
    assert_eq!(kept.len(), 0);
}

#[test]
fn filter_keeps_group_order() {
    let lines: Vec<String> = vec![
        "https://a.example news".to_string(),
        "https://b.example linux".to_string(),
        "https://c.example mail".to_string(),
    ];
    let groups = group_urls(&lines);
    let kept = filter_categories(groups, vec!["linux".to_string(), "news".to_string()]);
    assert_eq!(kept.len(), 2);
    assert_eq!(kept[0].0, "news".to_string());
    assert_eq!(kept[1].0, "linux".to_string());
}

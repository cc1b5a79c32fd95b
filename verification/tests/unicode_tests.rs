use fontchan::css::CssParseError;
use fontchan::unicode::{URangeBuilder, USpan};

fn span(start: u32, end: u32) -> USpan {
    USpan { start, end }
}

#[test]
fn test_unicode_range_from_css_syntax() {
    let set = URangeBuilder::from_css_syntax(b"U+1F600-1F64F, U+1F680-u+1F6C5, U+???, U+4, U+3??")
        .unwrap();
    let expected = URangeBuilder::from_spans(vec![
        span(0x1f600, 0x1f64f),
        span(0x1f680, 0x1f6c5),
        span(0x0, 0xfff),
        span(0x4, 0x4),
        span(0x300, 0x3ff),
    ]);
    assert_eq!(&set, &expected);
    set.build();
}

#[test]
fn css_parse_wildcard_and_range() {
    let set = URangeBuilder::from_css_syntax(b"U+1F600-1F64F, U+???").unwrap();
    assert_eq!(
        set.clone(),
        URangeBuilder::from_spans(vec![span(0x1f600, 0x1f64f), span(0, 0xfff)])
    );
}

#[test]
fn css_parse_rejects_extra_dashes() {
    let r = URangeBuilder::from_css_syntax(b"U+5-6-7");
    assert_eq!(r.unwrap_err(), CssParseError::TooManyDashes);
}

#[test]
fn css_parse_rejects_nonsense() {
    assert_eq!(
        URangeBuilder::from_css_syntax(b"zzz").unwrap_err(),
        CssParseError::InvalidPiece
    );
    assert_eq!(
        URangeBuilder::from_css_syntax(b"").unwrap_err(),
        CssParseError::InvalidPiece
    );
    // beyond the Unicode scalar values
    assert_eq!(
        URangeBuilder::from_css_syntax(b"U+110000").unwrap_err(),
        CssParseError::InvalidPiece
    );
    // a surrogate endpoint
    assert_eq!(
        URangeBuilder::from_css_syntax(b"U+D800").unwrap_err(),
        CssParseError::InvalidPiece
    );
    // a reversed range
    assert_eq!(
        URangeBuilder::from_css_syntax(b"U+10-5").unwrap_err(),
        CssParseError::InvalidPiece
    );
}

#[test]
fn urange_build_orders_singles_first() {
    let chars: Vec<char> = "abcxyzm".chars().collect();
    let r = URangeBuilder::from_chars(&chars).build();
    assert_eq!(r.single_count(), 1);
    assert_eq!(r.multi_count(), 2);
    // stored layout: singletons first, then the multi-point spans
    assert_eq!(
        r.as_spans().clone(),
        vec![span(0x6d, 0x6d), span(0x61, 0x63), span(0x78, 0x7a)]
    );
    // the characters themselves come out ascending
    let out: String = r.as_chars().into_iter().collect();
    assert_eq!(out, "abcmxyz");
}

#[test]
fn urange_build_merges_touching_spans() {
    let mut b = URangeBuilder::new();
    b.push(span(10, 12));
    b.push(span(13, 20));
    b.push(span(5, 5));
    let r = b.build();
    assert_eq!(r.single_count(), 1);
    assert_eq!(r.as_spans().clone(), vec![span(5, 5), span(10, 20)]);
}

#[test]
fn urange_build_deduplicates() {
    let chars: Vec<char> = "aaab".chars().collect();
    let r = URangeBuilder::from_chars(&chars).build();
    assert_eq!(r.single_count(), 0);
    assert_eq!(r.as_spans().clone(), vec![span(0x61, 0x62)]);
    let out: String = r.as_chars().into_iter().collect();
    assert_eq!(out, "ab");
}

#[test]
fn uspan_size_and_chars() {
    let s = span(0x61, 0x63);
    assert_eq!(s.size(), 3);
    assert!(!s.is_single());
    let cs: String = s.chars().into_iter().collect();
    assert_eq!(cs, "abc");
}

#[test]
fn uspan_chars_skip_surrogates() {
    let s = span(0xD7FE, 0xE001);
    let cs = s.chars();
    assert_eq!(
        cs,
        vec![
            char::from_u32(0xD7FE).unwrap(),
            char::from_u32(0xD7FF).unwrap(),
            char::from_u32(0xE000).unwrap(),
            char::from_u32(0xE001).unwrap()
        ]
    );
}

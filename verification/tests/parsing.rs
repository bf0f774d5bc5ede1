use bbcode::decoration::{color, color_found, color_head, rgb_color, size, size_head};
use bbcode::list::{list, listhead};
use bbcode::scan::NoMatch;
use bbcode::url::url;
use bbcode::{
    coded_segment, image, parse, segment, segments_until, text_segment, DecorationStyle,
    ListStyle, Segment,
};

#[test]
fn empty_input_has_no_segments() {
    assert_eq!(parse(""), vec![]);
}

#[test]
fn plain_text_is_one_segment() {
    assert_eq!(parse("Hello, world!"), vec![Segment::Text("Hello, world!")]);
    assert_eq!(parse("日本語のテキスト"), vec![Segment::Text("日本語のテキスト")]);
}

#[test]
fn unterminated_tag_is_text() {
    assert_eq!(
        parse("[b]unterminated"),
        vec![Segment::Text("[b]unterminated")]
    );
    assert_eq!(parse("[code]x"), vec![Segment::Text("[code]x")]);
    assert_eq!(parse("[quote]x[/b]"), vec![Segment::Text("[quote]x[/b]")]);
    assert_eq!(parse("[list][*]x"), vec![Segment::Text("[list][*]x")]);
    assert_eq!(parse("[url=x]y"), vec![Segment::Text("[url=x]y")]);
}

#[test]
fn tags_ignore_ascii_case() {
    let lower = parse("[b]x[/b]");
    assert_eq!(
        lower,
        vec![Segment::Decorated {
            style: DecorationStyle::Bold,
            text: vec![Segment::Text("x")],
        }]
    );
    assert_eq!(parse("[B]x[/b]"), lower);
    assert_eq!(parse("[b]x[/B]"), lower);
    assert_eq!(
        parse("[CoLoR=#000]x[/COLOR]"),
        vec![Segment::Decorated {
            style: DecorationStyle::Color(0, 0, 0),
            text: vec![Segment::Text("x")],
        }]
    );
}

#[test]
fn text_around_tags_is_kept() {
    assert_eq!(
        parse("[quote=\"Batman\"]I'm batman[/quote]\nIsn't he [i]dreamy[/i]?"),
        vec![
            Segment::Quote {
                attribution: Some("Batman"),
                body: vec![Segment::Text("I'm batman")],
            },
            Segment::Text("\nIsn't he "),
            Segment::Decorated {
                style: DecorationStyle::Italic,
                text: vec![Segment::Text("dreamy")],
            },
            Segment::Text("?"),
        ]
    );
}

#[test]
fn text_with_wide_characters_around_tags() {
    assert_eq!(
        parse("日本語[b]太字[/b]é"),
        vec![
            Segment::Text("日本語"),
            Segment::Decorated {
                style: DecorationStyle::Bold,
                text: vec![Segment::Text("太字")],
            },
            Segment::Text("é"),
        ]
    );
}

#[test]
fn color_forms() {
    assert_eq!(rgb_color("#81f]"), Ok(("]", (0x88, 0x11, 0xFF))));
    assert_eq!(rgb_color("#01FE9A]"), Ok(("]", (1, 0xFE, 0x9A))));
    assert_eq!(rgb_color("#01fe9a"), Ok(("", (1, 0xFE, 0x9A))));
    assert_eq!(rgb_color("#12"), Err(NoMatch));
    assert_eq!(rgb_color("#1234"), Err(NoMatch));
    assert_eq!(rgb_color("#1234567"), Err(NoMatch));
    assert_eq!(rgb_color("81f"), Err(NoMatch));
    assert_eq!(color_head("[color=red]x"), Ok(("x", (255, 0, 0))));
    assert_eq!(color_head("[color=#81f]x"), Ok(("x", (0x88, 0x11, 0xFF))));
    assert_eq!(color_head("[color=Red]x"), Err(NoMatch));
    assert_eq!(color_head("[color=red"), Err(NoMatch));
    assert_eq!(color_head("[color=]"), Err(NoMatch));
}

#[test]
fn a_found_color_is_passed_on() {
    assert_eq!(color_found("rest", Some((1, 2, 3))), Ok(("rest", (1, 2, 3))));
    assert_eq!(color_found("rest", None), Err(NoMatch));
}

#[test]
fn unknown_color_is_text() {
    assert!(color("[color=notacolor]x[/color]").is_err());
    assert_eq!(
        parse("[color=notacolor]x[/color]"),
        vec![Segment::Text("[color=notacolor]x[/color]")]
    );
}

#[test]
fn size_bounds() {
    assert_eq!(size_head("[size=1]"), Err(NoMatch));
    assert_eq!(size_head("[size=0]"), Err(NoMatch));
    assert_eq!(size_head("[size=30]"), Err(NoMatch));
    assert_eq!(size_head("[size=29]"), Ok(("", 29)));
    assert_eq!(size_head("[size=2]"), Ok(("", 2)));
    assert_eq!(size_head("[size=007]x"), Ok(("x", 7)));
    assert_eq!(size_head("[size=]"), Err(NoMatch));
    assert_eq!(size_head("[size=12"), Err(NoMatch));
    assert_eq!(size_head("[size=99999999999999999999]"), Err(NoMatch));
    assert_eq!(size_head("[size=+5]"), Err(NoMatch));
    assert!(size("[size=30]x[/size]").is_err());
    assert_eq!(
        parse("[size=30]x[/size]"),
        vec![Segment::Text("[size=30]x[/size]")]
    );
}

#[test]
fn only_sizes_are_made() {
    assert_eq!(DecorationStyle::size(0), None);
    assert_eq!(DecorationStyle::size(1), None);
    assert_eq!(DecorationStyle::size(2), Some(DecorationStyle::Size(2)));
    assert_eq!(DecorationStyle::size(29), Some(DecorationStyle::Size(29)));
    assert_eq!(DecorationStyle::size(30), None);
    assert_eq!(DecorationStyle::size(255), None);
}

#[test]
fn list_heads() {
    assert_eq!(listhead("[list]"), Ok(("", ListStyle::Unordered)));
    assert_eq!(listhead("[LIST=1]x"), Ok(("x", ListStyle::Numeric)));
    assert_eq!(listhead("[list=a]"), Ok(("", ListStyle::Alphabetic)));
    assert_eq!(listhead("[list=A]"), Err(NoMatch));
    assert_eq!(listhead("[list=b]"), Err(NoMatch));
    assert_eq!(listhead("[list=]"), Err(NoMatch));
    assert_eq!(listhead("[list=a"), Err(NoMatch));
}

#[test]
fn list_items_end_at_the_next_bullet() {
    assert_eq!(
        list("[list=1][*][b]One[/b][*][*]Three[/list]"),
        Ok((
            "",
            Segment::List {
                style: ListStyle::Numeric,
                items: vec![
                    vec![Segment::Decorated {
                        style: DecorationStyle::Bold,
                        text: vec![Segment::Text("One")],
                    }],
                    vec![],
                    vec![Segment::Text("Three")],
                ],
            }
        ))
    );
    assert_eq!(
        list("[list][*]One\n[*]Two[/list]"),
        Ok((
            "",
            Segment::List {
                style: ListStyle::Unordered,
                items: vec![vec![Segment::Text("One\n")], vec![Segment::Text("Two")]],
            }
        ))
    );
    assert_eq!(list("[list]stray[*]One[/list]"), Err(NoMatch));
}

#[test]
fn link_forms() {
    assert_eq!(
        url("[url][/url]"),
        Ok((
            "",
            Segment::Link {
                target: "",
                text: vec![Segment::Text("")],
            }
        ))
    );
    assert_eq!(
        url("[url=\"a]b[/url]"),
        Ok((
            "",
            Segment::Link {
                target: "\"a",
                text: vec![Segment::Text("b")],
            }
        ))
    );
    assert_eq!(
        url("[url=\"x\"][b]y[/b][/url]"),
        Ok((
            "",
            Segment::Link {
                target: "x",
                text: vec![Segment::Decorated {
                    style: DecorationStyle::Bold,
                    text: vec![Segment::Text("y")],
                }],
            }
        ))
    );
    assert_eq!(
        url("[url=x]for [i]example[/url]"),
        Ok((
            "",
            Segment::Link {
                target: "x",
                text: vec![Segment::Text("for [i]example")],
            }
        ))
    );
    assert_eq!(url("[url]x"), Err(NoMatch));
}

#[test]
fn text_stops_where_it_has_to() {
    assert_eq!(text_segment("", ()), Err(NoMatch));
    assert_eq!(text_segment("[/b]x", "[/b]"), Err(NoMatch));
    assert_eq!(text_segment("[/B]x", "[/b]"), Err(NoMatch));
    assert_eq!(text_segment("x", ""), Err(NoMatch));
    assert_eq!(text_segment("a[/b]", "[/b]"), Ok(("[/b]", "a")));
    assert_eq!(text_segment("a[/b]", ()), Ok(("", "a[/b]")));
    assert_eq!(text_segment("a[i]b[/i]", ()), Ok(("[i]b[/i]", "a")));
    assert_eq!(text_segment("[i]b[/i]", ()), Ok(("", "[i]b[/i]")));
    assert_eq!(text_segment("[[i]b[/i]", ()), Ok(("[i]b[/i]", "[")));
    assert_eq!(text_segment("a[*]b", &["[*]", "[/list]"]), Ok(("[*]b", "a")));
    assert_eq!(
        text_segment("a[/LIST]b", &["[*]", "[/list]"]),
        Ok(("[/LIST]b", "a"))
    );
    assert_eq!(text_segment("éa", "a"), Ok(("a", "é")));
}

#[test]
fn the_dispatcher_tries_tags_first() {
    assert_eq!(
        segment("[img]a[/img]b", ()),
        Ok(("b", Segment::Image { src: "a" }))
    );
    assert_eq!(segment("a[img]a[/img]", ()), Ok(("[img]a[/img]", Segment::Text("a"))));
    assert_eq!(segment("", ()), Err(NoMatch));
    assert_eq!(segment("[/b]", "[/b]"), Err(NoMatch));
    assert_eq!(coded_segment("a[img]a[/img]"), Err(NoMatch));
    assert_eq!(image("[IMG]a[/Img]"), Ok(("", Segment::Image { src: "a" })));
    assert_eq!(
        segments_until("a[i]b[/i][/b]c", "[/b]"),
        (
            "[/b]c",
            vec![
                Segment::Text("a"),
                Segment::Decorated {
                    style: DecorationStyle::Italic,
                    text: vec![Segment::Text("b")],
                },
            ]
        )
    );
}

#[test]
fn a_copy_is_equal() {
    let segments = parse("[list][*]a[b]b[/b][/list][quote=\"q\"]c[/quote]");
    let copies: Vec<Segment> = segments.iter().map(|s| s.clone()).collect();
    assert_eq!(copies, segments);
}

use bbcode::code::code;
use bbcode::decoration::{bold, color, css_color, size, size_head, underline};
use bbcode::list::list;
use bbcode::quote::{qhead, quote};
use bbcode::scan::{self, NoMatch};
use bbcode::url::url;
use bbcode::{parse, text_segment, DecorationStyle, ListStyle, Segment};

#[test]
fn empty_block_ok() {
    assert_eq!(code("[code][/code]"), Ok(("", Segment::Code(""))));
}

#[test]
fn takes_text_to_first_close() {
    assert_eq!(
        code("[code]10 PRINT HELLO WORLD\n20 GOTO 10[/code]sup[/code]"),
        Ok(("sup[/code]", Segment::Code("10 PRINT HELLO WORLD\n20 GOTO 10")))
    );
}

#[test]
fn bold_text() {
    assert_eq!(bold("[b]BOLD![/b]"), Ok(("", vec![Segment::Text("BOLD!")])));
}

#[test]
fn underlined_text() {
    assert_eq!(underline("[u]um[/u]"), Ok(("", vec![Segment::Text("um")])));
}

#[test]
fn accepts_colors() {
    assert_eq!(
        color("[color=red]asdf[/color]").unwrap().1,
        Segment::Decorated {
            style: DecorationStyle::Color(255, 0, 0),
            text: vec![Segment::Text("asdf")],
        }
    );

    assert_eq!(
        color("[color=#81f][/color]").unwrap().1,
        Segment::Decorated {
            style: DecorationStyle::Color(0x88, 0x11, 0xFF),
            text: vec![],
        }
    );

    assert_eq!(
        color("[color=#01FE9A]and[/color]").unwrap().1,
        Segment::Decorated {
            style: DecorationStyle::Color(1, 0xFE, 0x9A),
            text: vec![Segment::Text("and")],
        }
    );
}

#[test]
fn rejects_invalid_css_colors() {
    assert!(css_color("beyblade").is_err());
}

#[test]
fn enforces_size_limits() {
    assert_eq!(
        size("[size=10]midsize[/size]").unwrap().1,
        Segment::Decorated {
            style: DecorationStyle::size(10).unwrap(),
            text: vec![Segment::Text("midsize")],
        }
    );
    assert!(size_head("[size=0]").is_err());
    assert!(size_head("[size=50]").is_err());
}

#[test]
fn text_segment_no_terminal() {
    assert_eq!(text_segment("Hello, world!", ()), Ok(("", "Hello, world!")));
}

#[test]
fn text_segment_with_terminal() {
    assert_eq!(text_segment("Foo\r\nBar", "\r\n"), Ok(("\r\nBar", "Foo")));
}

#[test]
fn nested_segments() {
    let segments = parse("[b]Foo[i]bar[/i][/b]");
    assert_eq!(
        segments,
        vec![Segment::Decorated {
            style: DecorationStyle::Bold,
            text: vec![
                Segment::Text("Foo"),
                Segment::Decorated {
                    style: DecorationStyle::Italic,
                    text: vec![Segment::Text("bar")],
                }
            ],
        }]
    );
}

#[test]
fn parse_image() {
    assert_eq!(
        parse("[img]http://example.com/foo.webp[/img]"),
        vec![Segment::Image {
            src: "http://example.com/foo.webp"
        }]
    )
}

#[test]
fn list_with_multiple_items() {
    let (tail, x) = list("[list][*] One\n[*] Two[/list]Tail").expect("Should parse successfully");
    assert_eq!(
        x,
        Segment::List {
            style: ListStyle::Unordered,
            items: vec![vec![Segment::Text(" One\n")], vec![Segment::Text(" Two")],]
        }
    );
    assert_eq!(tail, "Tail");
}

#[test]
fn empty_list() {
    assert_eq!(
        list("[list=a][/list]"),
        Ok((
            "",
            Segment::List {
                style: ListStyle::Alphabetic,
                items: vec![],
            }
        ))
    );
}

#[test]
fn take_until_no_case() {
    assert_eq!(
        scan::take_until_no_case("FooBarBAZbaz", "baz"),
        Ok(("BAZbaz", "FooBar"))
    );
    assert_eq!(scan::take_until_no_case("BuZz", "BUZZ"), Ok(("BuZz", "")));
    assert_eq!(scan::take_until_no_case("BooFarQuux", "baz"), Err(NoMatch));
}

#[test]
fn just_qhead() {
    assert_eq!(qhead("[quote]"), Ok(("", None)));
    assert_eq!(qhead("[quote=\"たみや\"]"), Ok(("", Some("たみや"))));
}

#[test]
fn empty_quote() {
    assert_eq!(
        quote("[quote][/quote])"),
        Ok((
            ")",
            Segment::Quote {
                attribution: None,
                body: vec![],
            }
        ))
    );
}

#[test]
fn quote_without_attribution() {
    assert_eq!(
        quote("[quote]lol[/quote]More stuff"),
        Ok((
            "More stuff",
            Segment::Quote {
                attribution: None,
                body: vec![Segment::Text("lol")]
            }
        ))
    );
}

#[test]
fn url_parses() {
    assert_eq!(
        url("[URL]example.com[/URL]"),
        Ok((
            "",
            Segment::Link {
                target: "example.com",
                text: vec![Segment::Text("example.com")],
            }
        ))
    );
    assert_eq!(
        url("[url=example.com/\"quote\"]for [i]example[/url]"),
        Ok((
            "",
            Segment::Link {
                target: "example.com/\"quote\"",
                text: vec![Segment::Text("for [i]example")],
            }
        ))
    );
    assert_eq!(
        url("[url=\"example.com\"][b]orly?[/b][/url]more"),
        Ok((
            "more",
            Segment::Link {
                target: "example.com",
                text: vec![Segment::Decorated {
                    style: DecorationStyle::Bold,
                    text: vec![Segment::Text("orly?")],
                }],
            }
        ))
    );
}

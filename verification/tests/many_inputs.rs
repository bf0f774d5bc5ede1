use bbcode::render::{render, SimpleHtml};
use bbcode::{parse, Segment};

const PIECES: [&str; 34] = [
    "[b]", "[/b]", "[I]", "[/i]", "[u]", "[/u]", "[center]", "[/center]", "[url]", "[/url]",
    "[url=", "]", "\"", "[list", "[*]", "[/list]", "[quote", "=", "[/quote]", "[code]",
    "[/code]", "[img]", "[/img]", "[color=", "#", "81f", "red", "[/color]", "[size=", "12",
    "[/size]", "a", "é日", "[",
];

/// The text and code in `segments`, in document order.
fn visible(segments: &[Segment], out: &mut String) {
    for segment in segments {
        match segment {
            Segment::Text(t) => out.push_str(t),
            Segment::Code(t) => out.push_str(t),
            Segment::Decorated { text, .. } => visible(text, out),
            Segment::Quote { body, .. } => visible(body, out),
            Segment::Link { text, .. } => visible(text, out),
            Segment::List { items, .. } => {
                for item in items {
                    visible(item, out);
                }
            }
            Segment::Image { .. } => {}
        }
    }
}

/// Whether `a` can be had from `b` by leaving bytes out.
fn embeds(a: &[u8], b: &[u8]) -> bool {
    let mut rest = b.iter();
    a.iter().all(|x| rest.any(|y| x == y))
}

fn check(input: &str) {
    let segments = parse(input);
    assert_eq!(input.is_empty(), segments.is_empty(), "{:?}", input);
    if !input.contains('[') && !input.is_empty() {
        assert_eq!(segments, vec![Segment::Text(input)]);
    }
    if !input.contains("[/") {
        assert!(
            segments.iter().all(|s| matches!(s, Segment::Text(_))),
            "{:?}",
            input
        );
    }
    let mut text = String::new();
    visible(&segments, &mut text);
    assert!(embeds(text.as_bytes(), input.as_bytes()), "{:?}", input);

    let mut by_method = SimpleHtml::new(Vec::new());
    let mut by_function = SimpleHtml::new(Vec::new());
    assert!(by_method.render(&segments).is_ok());
    assert!(render(&mut by_function, &segments).is_ok());
    let html = by_method.into_inner();
    assert_eq!(html, by_function.into_inner());
    assert!(String::from_utf8(html).is_ok(), "{:?}", input);
}

#[test]
fn every_short_input_is_parsed_and_rendered() {
    for first in PIECES {
        check(first);
        for second in PIECES {
            check(&format!("{}{}", first, second));
            for third in PIECES {
                check(&format!("{}{}{}", first, second, third));
            }
        }
    }
}

#[test]
fn longer_inputs_are_parsed_and_rendered() {
    let mut state: u64 = 0x2545_f491_4f6c_dd1d;
    for _ in 0..3000 {
        let mut input = String::new();
        for _ in 0..8 {
            state = state
                .wrapping_mul(6364136223846793005)
                .wrapping_add(1442695040888963407);
            input.push_str(PIECES[(state >> 33) as usize % PIECES.len()]);
        }
        check(&input);
    }
}

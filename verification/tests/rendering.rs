use bbcode::render::{render, Escaping, Renderer, SimpleHtml};
use bbcode::{parse, DecorationStyle, ListStyle, Segment};

fn to_html(text: &str) -> String {
    let mut renderer = SimpleHtml::new(Vec::new());
    assert!(renderer.render(&parse(text)).is_ok());
    String::from_utf8(renderer.into_inner()).unwrap()
}

#[test]
fn text_is_escaped() {
    assert_eq!(to_html("a & b <c>\nd"), "a &amp; b &lt;c&gt;<br>d");
    assert_eq!(to_html("&<>\n"), "&amp;&lt;&gt;<br>");
    assert_eq!(to_html("\"quoted\" 日本語"), "\"quoted\" 日本語");
}

#[test]
fn escaping_depends_on_the_place() {
    let mut renderer = SimpleHtml::new(Vec::new());
    renderer.write_escaped("&<>\"\n", Escaping::Text);
    renderer.write_escaped("|", Escaping::Text);
    renderer.write_escaped("&<>\"\n", Escaping::Code);
    renderer.write_escaped("|", Escaping::Text);
    renderer.write_escaped("&<>\"\n", Escaping::Attribute);
    assert_eq!(
        String::from_utf8(renderer.into_inner()).unwrap(),
        "&amp;&lt;&gt;\"<br>|&amp;&lt;&gt;\"\n|&&lt;&gt;&quot;\n"
    );
}

#[test]
fn decorations_wrap_their_text() {
    assert_eq!(to_html("[b]x[/b][i]y[/i][u]z[/u]"), "<b>x</b><i>y</i><u>z</u>");
    assert_eq!(
        to_html("[center]mid[/center]"),
        "<div style=\"text-align:center\">mid</div>"
    );
    assert_eq!(
        to_html("[color=#01FE9A]c[/color]"),
        "<span style=\"color: #01fe9a\">c</span>"
    );
    assert_eq!(
        to_html("[size=12]s[/size]"),
        "<span style=\"font-size: 12\">s</span>"
    );
    assert_eq!(
        to_html("[size=2]s[/size]"),
        "<span style=\"font-size: 2\">s</span>"
    );
}

#[test]
fn sizes_are_written_in_decimal() {
    let mut renderer = SimpleHtml::new(Vec::new());
    assert!(renderer.decoration_begin(DecorationStyle::Size(7)).is_ok());
    assert!(renderer.decoration_begin(DecorationStyle::Size(29)).is_ok());
    assert!(renderer.decoration_begin(DecorationStyle::Size(205)).is_ok());
    assert_eq!(
        String::from_utf8(renderer.into_inner()).unwrap(),
        "<span style=\"font-size: 7\"><span style=\"font-size: 29\"><span style=\"font-size: 205\">"
    );
}

#[test]
fn quotes_name_their_source() {
    assert_eq!(
        to_html("[quote=\"Batman\"]I'm batman[/quote]"),
        "<div>Batman wrote:</div><div>I'm batman</div>"
    );
    assert_eq!(to_html("[quote]lol[/quote]"), "<div>Quote:</div><div>lol</div>");
}

#[test]
fn code_keeps_its_lines() {
    assert_eq!(
        to_html("[code]if a < b {\n  [b]&[/b]\n}[/code]"),
        "<pre>if a &lt; b {\n  [b]&amp;[/b]\n}</pre>"
    );
}

#[test]
fn images_and_links_escape_their_attributes() {
    assert_eq!(
        to_html("[img]http://example.com/a.png?x=\"<>\"[/img]"),
        "<img src=\"http://example.com/a.png?x=&quot;&lt;&gt;&quot;\">"
    );
    assert_eq!(
        to_html("[url=http://example.com/?a&b]x < y[/url]"),
        "<a href=\"http://example.com/?a&b\">x &lt; y</a>"
    );
    assert_eq!(
        to_html("[url]example.com[/url]"),
        "<a href=\"example.com\">example.com</a>"
    );
}

#[test]
fn lists_have_items() {
    assert_eq!(
        to_html("[list][*]One[*]Two[/list]"),
        "<ul><li>One</li><li>Two</li></ul>"
    );
    assert_eq!(to_html("[list=1][*]One[/list]"), "<ol><li>One</li></ol>");
    assert_eq!(
        to_html("[list=a][*]One[/list]"),
        "<ol type=\"a\"><li>One</li></ol>"
    );
    assert_eq!(to_html("[list][/list]"), "<ul></ul>");
}

#[test]
fn rendering_appends_to_the_buffer() {
    let mut renderer = SimpleHtml::new(b"<p>".to_vec());
    assert!(renderer.render(&parse("[b]x[/b]")).is_ok());
    assert!(renderer.render(&parse("y")).is_ok());
    assert_eq!(renderer.into_inner(), b"<p><b>x</b>y".to_vec());
}

#[test]
fn generic_render_agrees() {
    let segments = parse("[quote=\"Batman\"]I'm [i]batman[/i][/quote][list][*]a[/list]");
    let mut by_method = SimpleHtml::new(Vec::new());
    let mut by_function = SimpleHtml::new(Vec::new());
    assert!(by_method.render(&segments).is_ok());
    assert!(render(&mut by_function, &segments).is_ok());
    assert_eq!(by_method.into_inner(), by_function.into_inner());
}

/// Records the hooks that are called, and fails at the call with the given
/// number.
struct Recorder {
    calls: Vec<String>,
    fail_at: Option<usize>,
}

impl Recorder {
    fn new(fail_at: Option<usize>) -> Self {
        Recorder {
            calls: Vec::new(),
            fail_at,
        }
    }

    fn record(&mut self, call: String) -> Result<(), String> {
        if self.fail_at == Some(self.calls.len()) {
            return Err(format!("failed at {}", call));
        }
        self.calls.push(call);
        Ok(())
    }
}

impl Renderer for Recorder {
    type Err = String;

    fn text(&mut self, s: &str) -> Result<(), String> {
        self.record(format!("text {}", s))
    }

    fn decoration_begin(&mut self, style: DecorationStyle) -> Result<(), String> {
        self.record(format!("decoration_begin {:?}", style))
    }

    fn decoration_end(&mut self, style: DecorationStyle) -> Result<(), String> {
        self.record(format!("decoration_end {:?}", style))
    }

    fn quote_begin(&mut self, attribution: &Option<&str>) -> Result<(), String> {
        self.record(format!("quote_begin {:?}", attribution))
    }

    fn quote_end(&mut self, attribution: &Option<&str>) -> Result<(), String> {
        self.record(format!("quote_end {:?}", attribution))
    }

    fn code(&mut self, s: &str) -> Result<(), String> {
        self.record(format!("code {}", s))
    }

    fn list_begin(&mut self, style: ListStyle) -> Result<(), String> {
        self.record(format!("list_begin {:?}", style))
    }

    fn list_item_begin(&mut self, style: ListStyle) -> Result<(), String> {
        self.record(format!("list_item_begin {:?}", style))
    }

    fn list_item_end(&mut self, style: ListStyle) -> Result<(), String> {
        self.record(format!("list_item_end {:?}", style))
    }

    fn list_end(&mut self, style: ListStyle) -> Result<(), String> {
        self.record(format!("list_end {:?}", style))
    }

    fn link_begin(&mut self, target: &str) -> Result<(), String> {
        self.record(format!("link_begin {}", target))
    }

    fn link_end(&mut self, target: &str) -> Result<(), String> {
        self.record(format!("link_end {}", target))
    }

    fn image(&mut self, src: &str) -> Result<(), String> {
        self.record(format!("image {}", src))
    }
}

fn calls(segments: &Vec<Segment>) -> Vec<String> {
    let mut recorder = Recorder::new(None);
    assert_eq!(render(&mut recorder, segments), Ok(()));
    recorder.calls
}

#[test]
fn empty_bodies_begin_and_end() {
    assert_eq!(
        calls(&parse("[b][/b]")),
        vec!["decoration_begin Bold", "decoration_end Bold"]
    );
    assert_eq!(
        calls(&parse("[quote][/quote]")),
        vec!["quote_begin None", "quote_end None"]
    );
    assert_eq!(
        calls(&parse("[list=1][/list]")),
        vec!["list_begin Numeric", "list_end Numeric"]
    );
    assert_eq!(
        calls(&parse("[list][*][/list]")),
        vec![
            "list_begin Unordered",
            "list_item_begin Unordered",
            "list_item_end Unordered",
            "list_end Unordered"
        ]
    );
    assert_eq!(
        calls(&parse("[url=x][/url]")),
        vec!["link_begin x", "link_end x"]
    );
}

#[test]
fn hooks_are_called_in_document_order() {
    assert_eq!(
        calls(&parse(
            "a[b]b[i]c[/i][/b][code]d[/code][img]e[/img][url=f]g[/url][list=a][*]h[*]i[/list]"
        )),
        vec![
            "text a",
            "decoration_begin Bold",
            "text b",
            "decoration_begin Italic",
            "text c",
            "decoration_end Italic",
            "decoration_end Bold",
            "code d",
            "image e",
            "link_begin f",
            "text g",
            "link_end f",
            "list_begin Alphabetic",
            "list_item_begin Alphabetic",
            "text h",
            "list_item_end Alphabetic",
            "list_item_begin Alphabetic",
            "text i",
            "list_item_end Alphabetic",
            "list_end Alphabetic",
        ]
    );
}

#[test]
fn a_failing_hook_ends_the_rendering() {
    let segments = parse("a[b]b[i]c[/i][/b]d");
    let mut recorder = Recorder::new(Some(3));
    assert_eq!(
        render(&mut recorder, &segments),
        Err("failed at decoration_begin Italic".to_string())
    );
    assert_eq!(
        recorder.calls,
        vec!["text a", "decoration_begin Bold", "text b"]
    );
}

use nfm_core::Parser;

const TD: &str = "<td align=\"center\" valign=\"baseline\" colspan=\"1\" rowspan=\"1\">";
const TH: &str = "<th scope=\"col\" align=\"center\" valign=\"baseline\" colspan=\"1\" rowspan=\"1\">";

#[test]
fn anchor_1() {
    let html = Parser::parse_str("# <anchor-1>Header 1\n");
    assert_eq!("<h1><a id=\"anchor-1\"></a>Header 1</h1>\n", html);
}

#[test]
fn br_1() {
    let html = Parser::parse_str("Line one  \nLine two\n");
    assert_eq!("<p>Line one<br />\nLine two</p>\n", html);
}

#[test]
fn br_2() {
    let html = Parser::parse_str("> Quote one  \n> Quote two\n");
    assert_eq!("<blockquote>Quote one<br />\nQuote two</blockquote>\n", html);
}

#[test]
fn blockquote_1() {
    let html = Parser::parse_str("> A quote\n");
    assert_eq!("<blockquote>A quote</blockquote>\n", html);
}

#[test]
fn blockquote_2() {
    let html = Parser::parse_str("> Line one\n> Line two\n\nAfter\n");
    assert_eq!("<blockquote>Line one\nLine two</blockquote>\n\n<p>After</p>\n", html);
}

#[test]
fn checked_1() {
    let html = Parser::parse_str("- [x] Done\n");
    assert_eq!(
        "<ul><li><input type=\"checkbox\" disabled=\"disabled\" checked=\"checked\" /> Done</li></ul>\n",
        html
    );
}

#[test]
fn code_1() {
    let html = Parser::parse_str("Use `**code**` here\n");
    assert_eq!("<p>Use <code>**code**</code> here</p>\n", html);
}

#[test]
fn codefence_1() {
    let html = Parser::parse_str("```\nlet x = 1;\n```\n");
    assert_eq!("<pre><code>let&nbsp;x&nbsp;=&nbsp;1;</code></pre>\n", html);
}

#[test]
fn codefence_2() {
    let html = Parser::parse_str("```rust\nfn main() {\n    a < b\n}\n```\n");
    assert_eq!(
        "<pre><code lang=\"rust\">fn&nbsp;main()&nbsp;{\n&nbsp;&nbsp;&nbsp;&nbsp;a&nbsp;&lt;&nbsp;b\n}</code></pre>\n",
        html
    );
}

#[test]
fn codefence_3() {
    let html = Parser::parse_str("```\n\\`tick\\`\n");
    assert_eq!("<pre><code>`tick`</code></pre>\n", html);
}

#[test]
fn link_1() {
    let html = Parser::parse_str("[Example](https://example.com)\n");
    assert_eq!("<p><a href=\"https://example.com\">Example</a></p>\n", html);
}

#[test]
fn link_2() {
    let html = Parser::parse_str("[**Bold** link](target) and [no target]\n");
    assert_eq!(
        "<p><a href=\"target\"><strong>Bold</strong> link</a> and [no target]</p>\n",
        html
    );
}

#[test]
fn list_1() {
    let html = Parser::parse_str("- One\n- Two\n- Three\n");
    assert_eq!("<ul><li>One</li><li>Two</li><li>Three</li></ul>\n", html);
}

#[test]
fn list_2() {
    let html = Parser::parse_str("0. One\n0. Two\n");
    assert_eq!("<ol><li>One</li><li>Two</li></ol>\n", html);
}

#[test]
fn list_3() {
    let html = Parser::parse_str("- Here\n    0. is\n    0. a\n        - mixed\n- list.\n");
    assert_eq!(
        "<ul><li>Here</li><ol><li>is</li><li>a</li><ul><li>mixed</li></ul></ol><li>list.</li></ul>\n",
        html
    );
}

#[test]
fn list_4() {
    let html = Parser::parse_str("- a\n        - b\n    - c\n");
    assert_eq!("<ul><li>a</li><ul><ul><li>b</li></ul><li>c</li></ul></ul>\n", html);
}

#[test]
fn list_5() {
    let html = Parser::parse_str("- First line\nstill first\n- Second\n");
    assert_eq!("<ul><li>First line\nstill first</li><li>Second</li></ul>\n", html);
}

#[test]
fn list_6() {
    let html = Parser::parse_str("- Item\n\nParagraph\n");
    assert_eq!("<ul><li>Item</li></ul>\n\n<p>Paragraph</p>\n", html);
}

#[test]
fn del_1() {
    let html = Parser::parse_str("This is ~~deleted~~ text\n");
    assert_eq!("<p>This is <del>deleted</del> text</p>\n", html);
}

#[test]
fn em_1() {
    let html = Parser::parse_str("This is _emphasized_ text\n");
    assert_eq!("<p>This is <em>emphasized</em> text</p>\n", html);
}

#[test]
fn em_2() {
    let html = Parser::parse_str("snake\\_case and _em_\n");
    assert_eq!("<p>snake_case and <em>em</em></p>\n", html);
}

#[test]
fn h1_1() {
    let html = Parser::parse_str("# Header 1\n");
    assert_eq!("<h1>Header 1</h1>\n", html);
}

#[test]
fn h1_2() {
    let html = Parser::parse_str("#No space **bold**\n");
    assert_eq!("<h1>No space <strong>bold</strong></h1>\n", html);
}

#[test]
fn h2_1() {
    let html = Parser::parse_str("## Header 2\n");
    assert_eq!("<h2>Header 2</h2>\n", html);
}

#[test]
fn h3_1() {
    let html = Parser::parse_str("### Header 3\n");
    assert_eq!("<h3>Header 3</h3>\n", html);
}

#[test]
fn h4_1() {
    let html = Parser::parse_str("#### Header 4\n");
    assert_eq!("<h4>Header 4</h4>\n", html);
}

#[test]
fn h5_1() {
    let html = Parser::parse_str("##### Header 5\n");
    assert_eq!("<h5>Header 5</h5>\n", html);
}

#[test]
fn h6_1() {
    let html = Parser::parse_str("###### Header 6\n");
    assert_eq!("<h6>Header 6</h6>\n", html);
}

#[test]
fn hr_1() {
    let html = Parser::parse_str("- - -\n");
    assert_eq!("<hr />\n", html);
}

#[test]
fn hr_2() {
    let html = Parser::parse_str("Text\n\n- - -\n\nMore\n");
    assert_eq!("<p>Text</p>\n\n<hr />\n\n<p>More</p>\n", html);
}

#[test]
fn img_1() {
    let html = Parser::parse_str("![Alt text](image.png)\n");
    assert_eq!("<p><img alt=\"Alt text\" src=\"image.png\" /></p>\n", html);
}

#[test]
fn ins_1() {
    let html = Parser::parse_str("This is ++inserted++ text\n");
    assert_eq!("<p>This is <ins>inserted</ins> text</p>\n", html);
}

#[test]
fn mark_1() {
    let html = Parser::parse_str("This is ==marked== text\n");
    assert_eq!("<p>This is <mark>marked</mark> text</p>\n", html);
}

#[test]
fn p_1() {
    let html = Parser::parse_str("Hello, world!\n");
    assert_eq!("<p>Hello, world!</p>\n", html);
}

#[test]
fn p_2() {
    let html = Parser::parse_str("Line one\nLine two\n");
    assert_eq!("<p>Line one\nLine two</p>\n", html);
}

#[test]
fn p_3() {
    let html = Parser::parse_str("First\n\nSecond\n");
    assert_eq!("<p>First</p>\n\n<p>Second</p>\n", html);
}

#[test]
fn p_4() {
    let html = Parser::parse_str("\\# Not a heading\n");
    assert_eq!("<p># Not a heading</p>\n", html);
}

#[test]
fn p_5() {
    let html = Parser::parse_str("1 > 0 and 0 < 1\n");
    assert_eq!("<p>1 &gt; 0 and 0 &lt; 1</p>\n", html);
}

#[test]
fn p_6() {
    let html = Parser::parse_str("\\\\ backslash and \\*\\*not bold\\*\\*\n");
    assert_eq!("<p>\\ backslash and **not bold**</p>\n", html);
}

#[test]
fn precode_1() {
    let html = Parser::parse_str("    let x = 1;\n    if x < 2 {}\n");
    assert_eq!(
        "<pre><code>let&nbsp;x&nbsp;=&nbsp;1;\nif&nbsp;x&nbsp;&lt;&nbsp;2&nbsp;{}</code></pre>\n",
        html
    );
}

#[test]
fn strong_1() {
    let html = Parser::parse_str("This is **bold** text\n");
    assert_eq!("<p>This is <strong>bold</strong> text</p>\n", html);
}

#[test]
fn strong_2() {
    let html = Parser::parse_str("\\*\\*not bold\\*\\*\n");
    assert_eq!("<p>**not bold**</p>\n", html);
    assert!(!html.contains("<strong>"));
}

#[test]
fn sup_1() {
    let html = Parser::parse_str("E = mc^2^\n");
    assert_eq!("<p>E = mc<sup>2</sup></p>\n", html);
}

#[test]
fn unchecked_1() {
    let html = Parser::parse_str("- [ ] Later\n");
    assert_eq!(
        "<ul><li><input type=\"checkbox\" disabled=\"disabled\" /> Later</li></ul>\n",
        html
    );
}

#[test]
fn full_1() {
    let markdown = "
# <anchor-1>Header 1

This is a link back to [Header 1](#anchor-1).

- Here
    0. is
    0. a
        - mixed
- list.

- - -

Here is some content with a footnote^[1](#foot-1)^.

<foot-1>1: Some more info on that footnote.
";
    let against = "
<h1><a id=\"anchor-1\"></a>Header 1</h1>

<p>This is a link back to <a href=\"#anchor-1\">Header 1</a>.</p>

<ul><li>Here</li><ol><li>is</li><li>a</li><ul><li>mixed</li></ul></ol><li>list.</li></ul>

<hr />

<p>Here is some content with a footnote<sup><a href=\"#foot-1\">1</a></sup>.</p>

<p><a id=\"foot-1\"></a>1: Some more info on that footnote.</p>
";
    let html = Parser::parse_str(markdown);
    assert_eq!(against, html);
}

#[test]
fn table_1() {
    let html = Parser::parse_str("| A | B\n| C | D\n");
    let against = format!(
        "<table><tbody><tr>{TD}A</td>{TD}B</td></tr><tr>{TD}C</td>{TD}D</td></tr></tbody></table>\n"
    );
    assert_eq!(against, html);
}

#[test]
fn table_2() {
    let html = Parser::parse_str("|= Name |= Value\n| a | 1\n");
    let against = format!(
        "<table><tbody><tr>{TH}Name</th>{TH}Value</th></tr><tr>{TD}a</td>{TD}1</td></tr></tbody></table>\n"
    );
    assert_eq!(against, html);
}

#[test]
fn table_3() {
    let html = Parser::parse_str("|=$t,2 Header\n");
    assert_eq!(
        "<table><tbody><tr><th scope=\"col\" align=\"right\" valign=\"top\" colspan=\"1\" rowspan=\"2\">Header</th></tr></tbody></table>\n",
        html
    );
}

#[test]
fn table_4() {
    let html = Parser::parse_str("|-^m2 Wide |__b_,03 Tall\n");
    assert_eq!(
        "<table><tbody><tr><th scope=\"row\" align=\"left\" valign=\"middle\" colspan=\"2\" rowspan=\"1\">Wide</th><td align=\"center\" valign=\"bottom\" colspan=\"1\" rowspan=\"3\">Tall</td></tr></tbody></table>\n",
        html
    );
}

#[test]
fn table_5() {
    let html = Parser::parse_str("| a   | b\n\nafter\n");
    let against =
        format!("<table><tbody><tr>{TD}a</td>{TD}b</td></tr></tbody></table>\n\n<p>after</p>\n");
    assert_eq!(against, html);
}

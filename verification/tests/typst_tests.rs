use pdfops::typst::{escape_typst, markdown_to_typst};

#[test]
fn escape_typst_marks_specials() {
    assert_eq!(escape_typst("a#b@c<d>e&f~g'h`i").as_str(), "a\\#b\\@c\\<d\\>e\\&f\\~g\\'h\\`i");
}

#[test]
fn escape_typst_keeps_plain_text() {
    assert_eq!(escape_typst("plain text, 100% ok").as_str(), "plain text, 100% ok");
    assert_eq!(escape_typst("").as_str(), "");
}

#[test]
fn heading_becomes_equals_signs() {
    let doc = markdown_to_typst("# H1\n\n### H3", None);
    assert!(doc.source.contains("\n= H1\n"));
    assert!(doc.source.contains("\n=== H3\n"));
}

use pdfops::markdown::{parse_markdown, MdExtensions};
use pdfops::typst::{render_markdown_tree, render_node, typst_reply, MdKind, MdNode, RenderCtx};

const PREAMBLE: &str = "#set page(paper: \"a4\", margin: (x: 2.5cm, y: 3cm))\n#set text(font: \"New Computer Modern\", size: 11pt, lang: \"en\")\n#set par(justify: true, leading: 0.65em)\n#set heading(numbering: \"1.1\")\n#show link: underline\n";

fn typst(md: &str) -> String {
    markdown_to_typst(md, None).source
}

fn body(md: &str) -> String {
    let s = typst(md);
    assert!(s.starts_with(PREAMBLE));
    s[PREAMBLE.len()..].to_string()
}

#[test]
fn paragraph_is_framed_by_blank_lines() {
    assert_eq!(body("Hello world"), "\n\nHello world\n");
}

#[test]
fn preamble_and_title_block() {
    let s = markdown_to_typst("text", Some("My #1 Doc")).source;
    let expected_head = format!("{}\n#align(center)[#text(18pt, weight: \"bold\")[My \\#1 Doc]]\n\n\n", PREAMBLE);
    assert!(s.starts_with(&expected_head));
    assert_eq!(s, format!("{}\ntext\n", expected_head));
}

#[test]
fn empty_markdown_gives_preamble_and_newline() {
    assert_eq!(typst(""), format!("{}\n", PREAMBLE));
}

#[test]
fn strong_emph_and_strike() {
    assert_eq!(body("**bold** *it* ~~gone~~"), "\n\n*bold* _it_ #strike[gone]\n");
}

#[test]
fn inline_code_is_kept_verbatim() {
    assert_eq!(body("use `a#b`"), "\n\nuse `a#b`\n");
}

#[test]
fn code_block_keeps_language_and_text() {
    assert_eq!(body("```  rust  \nfn main() {}\n```"), "\n\n#raw(lang: \"rust\", block: true, \"fn main() {}\\n\")\n");
    assert_eq!(body("```\nsay \"hi\" \\ bye\n```"), "\n\n#raw(block: true, \"say \\\"hi\\\" \\\\ bye\\n\")\n");
}

#[test]
fn math_inline_and_display() {
    assert_eq!(body("Some $x^2$ math."), "\n\nSome $x^2$ math.\n");
    assert_eq!(body("$$a+b$$"), "\n\n\n$ a+b $\n\n");
}

#[test]
fn link_and_image() {
    assert_eq!(body("[text](http://example.com)"), "\n\n#link(\"http://example.com\")[text]\n");
    assert_eq!(body("![alt](pic.png)"), "\n\n\n#figure(\n  image(\"pic.png\"),\n  caption: [alt],\n)\n\n");
}

#[test]
fn block_quote() {
    assert_eq!(body("> quoted"), "\n\n#quote[\n\nquoted\n]\n");
}

#[test]
fn thematic_break() {
    assert_eq!(body("***"), "\n\n#line(length: 100%)\n");
}

#[test]
fn bullet_and_ordered_lists() {
    assert_eq!(body("- a\n- b"), "\n\n- a\n- b\n");
    assert_eq!(body("1. a\n2. b"), "\n\n+ a\n+ b\n");
    let s = typst("- item\n\n1. one");
    assert!(s.lines().any(|l| l == "- item"));
    assert!(s.lines().any(|l| l == "+ one"));
}

#[test]
fn task_list_items() {
    assert_eq!(body("- [x] done\n- [ ] open"), "\n\n- [x] done\n- [ ] open\n");
}

#[test]
fn table_with_columns() {
    let s = body("| a | b |\n|---|---|\n| 1 | 2 |");
    assert_eq!(s, "\n\n#table(\n  columns: 2,\n  [a],\n  [b],\n  [1],\n  [2],\n)\n");
}

#[test]
fn soft_and_hard_breaks() {
    assert_eq!(body("a\nb"), "\n\na b\n");
    assert_eq!(body("a\\\nb"), "\n\na\\\nb\n");
}

#[test]
fn html_is_dropped() {
    assert_eq!(body("a <b>x</b> c"), "\n\na x c\n");
}

#[test]
fn footnote_reference_and_definition() {
    let s = body("Text[^n].\n\n[^n]: Note.");
    assert_eq!(s, "\n\nText#footnote[\nNote.\n].\n");
    assert!(!s.contains("#note"));
}

#[test]
fn text_is_escaped() {
    assert_eq!(body("mail me @ home & a < b > c ~ d ' e"), "\n\nmail me \\@ home \\& a \\< b \\> c \\~ d \\' e\n");
}

#[test]
fn rendering_a_built_tree() {
    let text = |t: &str| MdNode { kind: MdKind::Text(t.to_string()), children: vec![] };
    let item = |t: &str| MdNode {
        kind: MdKind::Item,
        children: vec![MdNode { kind: MdKind::Paragraph, children: vec![text(t)] }],
    };
    let doc = MdNode {
        kind: MdKind::Document,
        children: vec![
            MdNode { kind: MdKind::Heading(2), children: vec![text("T")] },
            MdNode { kind: MdKind::List { ordered: true }, children: vec![item("x"), item("y")] },
        ],
    };
    let s = render_markdown_tree(&doc, None).source;
    assert_eq!(&s[PREAMBLE.len()..], "\n\n== T\n\n+ x\n+ y\n");
}

#[test]
fn parser_reads_ordered_lists() {
    let ext = MdExtensions { table: true, strikethrough: true, tasklist: true, footnotes: true, math_dollars: true };
    let doc = parse_markdown("1. a", &ext);
    assert!(matches!(doc.kind, MdKind::Document));
    assert!(matches!(doc.children[0].kind, MdKind::List { ordered: true }));
    assert!(matches!(doc.children[0].children[0].kind, MdKind::Item));
}

#[test]
fn escape_works_piece_by_piece() {
    let a = "x#y";
    let b = "<z>";
    let whole = escape_typst(&format!("{a}{b}"));
    assert_eq!(whole, format!("{}{}", escape_typst(a), escape_typst(b)));
}

#[test]
fn footnotes_nest_and_self_reference_is_cut() {
    let s = body("A[^x] and [^y].\n\n[^x]: See [^x].");
    assert_eq!(s, "\n\nA#footnote[\nSee #footnote[\nSee #footnote[].\n].\n] and [^y].\n");
    let s = body("A[^a].\n\n[^a]: B[^b].\n\n[^b]: C.");
    assert_eq!(s, "\n\nA#footnote[\nB#footnote[\nC.\n].\n].\n");
    let r = MdNode { kind: MdKind::FootnoteReference("z".to_string()), children: vec![] };
    let mut buf = String::new();
    render_node(&r, &mut buf, RenderCtx { in_table: false, in_item: false, depth: 0 }, false, &vec![]);
    assert_eq!(buf, "#footnote[]");
}

#[test]
fn escaping_can_be_undone() {
    let special = |c: char| "#@<>&~'`".contains(c);
    let original = "a#b\\c@<x>&~'`y";
    let escaped: Vec<char> = escape_typst(original).chars().collect();
    let mut undone = String::new();
    let mut i = 0;
    while i < escaped.len() {
        if escaped[i] == '\\' && i + 1 < escaped.len() && special(escaped[i + 1]) {
            undone.push(escaped[i + 1]);
            i += 2;
        } else {
            undone.push(escaped[i]);
            i += 1;
        }
    }
    assert_eq!(undone, original);
}

#[test]
fn rendering_appends_to_the_buffer() {
    let node = MdNode {
        kind: MdKind::Strong,
        children: vec![MdNode { kind: MdKind::Text("b".to_string()), children: vec![] }],
    };
    let mut buf = String::from("prefix ");
    render_node(&node, &mut buf, RenderCtx { in_table: false, in_item: false, depth: 0 }, false, &vec![]);
    assert_eq!(buf, "prefix *b*");
}

#[test]
fn title_block_follows_the_preamble() {
    let s = markdown_to_typst("x", Some("My #1")).source;
    assert!(s.starts_with(PREAMBLE));
    assert!(s[PREAMBLE.len()..].starts_with("\n#align(center)[#text(18pt, weight: \"bold\")[My \\#1]]\n\n\n\nx\n"));
}

#[test]
fn typst_reply_names_the_output() {
    assert_eq!(typst_reply("/out/doc.typ"), "{\"output_path\": \"/out/doc.typ\", \"compiled\": false}");
    assert_eq!(typst_reply("a\"b\\c\n"), "{\"output_path\": \"a\\\"b\\\\c\\n\", \"compiled\": false}");
}

#[test]
fn rendered_text_does_not_depend_on_the_buffer() {
    let item = MdNode {
        kind: MdKind::Item,
        children: vec![MdNode { kind: MdKind::Paragraph, children: vec![MdNode { kind: MdKind::Text("x".to_string()), children: vec![] }] }],
    };
    let cx = RenderCtx { in_table: false, in_item: false, depth: 0 };
    let mut alone = String::new();
    render_node(&item, &mut alone, cx, true, &vec![]);
    let mut after = String::from("text\n");
    render_node(&item, &mut after, cx, true, &vec![]);
    assert_eq!(alone, "+ x\n");
    assert_eq!(after, format!("text\n{alone}"));
}

//! Markdown to Typst source conversion.

use vstd::prelude::*;
use vstd::string::StrSliceExecFns;
use crate::markdown::{MdExtensions, comrak_document, parse_markdown};
use crate::text::{json_string_spec, push_json_string, push_char, ends_with_newline, push_repeated, push_decimal, trim, repeat_spec, decimal_spec, trim_spec};

verus! {

/// The characters that have a meaning of their own in Typst markup and
/// must be preceded by a backslash inside plain text.
pub open spec fn is_typst_special(c: char) -> bool {
    c == '#' || c == '@' || c == '<' || c == '>' || c == '&' || c == '~' || c == '\'' || c == '`'
}

/// The escaped form of one character.
pub open spec fn escape_char_spec(c: char) -> Seq<char> {
    if is_typst_special(c) { seq!['\\', c] } else { seq![c] }
}

/// `s` with every Typst special character preceded by a backslash.
pub open spec fn escape_spec(s: Seq<char>) -> Seq<char>
    decreases s.len(),
{
    if s.len() == 0 {
        Seq::empty()
    } else {
        escape_spec(s.drop_last()) + escape_char_spec(s.last())
    }
}

/// Escapes the characters that Typst would read as markup.
pub fn escape_typst(s: &str) -> (out: String)
    ensures
        out@ == escape_spec(s@),
{
    let mut out = String::new();
    for ch in it: s.chars()
        invariant
            it.seq() == s@,
            out@ == escape_spec(s@.take(it.index() as int)),
    {
        let ghost i = it.index() as int;
        assert(s@.take(i + 1).drop_last() =~= s@.take(i));
        if ch == '#' || ch == '@' || ch == '<' || ch == '>' || ch == '&' || ch == '~' || ch == '\''
            || ch == '`' {
            push_char(&mut out, '\\');
        }
        push_char(&mut out, ch);
    }
    assert(s@.take(s@.len() as int) =~= s@);
    out
}

} // verus!

verus! {

/// What a node of a parsed Markdown document is, with the data that the
/// Typst rendering reads from it.
pub enum MdKind {
    Document,
    Heading(u8),
    Paragraph,
    Text(String),
    Strong,
    Emph,
    Strikethrough,
    Code(String),
    CodeBlock { info: String, literal: String },
    Math { display: bool, literal: String },
    Link(String),
    Image(String),
    BlockQuote,
    ThematicBreak,
    List { ordered: bool },
    Item,
    TaskItem { checked: bool },
    Table { columns: usize },
    TableRow,
    TableCell,
    SoftBreak,
    LineBreak,
    Html,
    /// A footnote's text, under its name.
    FootnoteDefinition(String),
    /// A reference to the footnote of this name.
    FootnoteReference(String),
    /// Any other node: only its children are rendered.
    Other,
}

/// A node of a parsed Markdown document and its children, in order.
pub struct MdNode {
    pub kind: MdKind,
    pub children: Vec<MdNode>,
}

/// Where a node stands while it is rendered.
#[derive(Clone, Copy)]
pub struct RenderCtx {
    /// Inside a table: paragraphs add no line breaks.
    pub in_table: bool,
    /// Inside a list item: a paragraph continues the item's line.
    pub in_item: bool,
    /// How many footnotes' texts the node stands in.
    pub depth: usize,
}

/// The context of the document's top-level nodes.
pub open spec fn top_ctx() -> RenderCtx {
    RenderCtx { in_table: false, in_item: false, depth: 0 }
}

/// Whether a footnote reference in context `cx` is rendered with its
/// definition's text: footnotes nest at most as deep as there are nodes
/// where definitions are looked up, which any chain of distinct footnotes
/// stays within; only a footnote that refers back to itself is cut there.
pub open spec fn note_opens(cx: RenderCtx, count: nat) -> bool {
    cx.depth < count && cx.depth < usize::MAX
}

/// How many more footnote levels may be opened.
pub open spec fn note_rank(cx: RenderCtx, count: nat) -> nat {
    if cx.depth < count { (count - cx.depth) as nat } else { 0 }
}

/// A character as it stands inside a Typst string literal.
pub open spec fn typst_str_char(c: char) -> Seq<char> {
    if c == '\\' {
        seq!['\\', '\\']
    } else if c == '"' {
        seq!['\\', '"']
    } else if c == '\n' {
        seq!['\\', 'n']
    } else if c == '\r' {
        seq!['\\', 'r']
    } else if c == '\t' {
        seq!['\\', 't']
    } else {
        seq![c]
    }
}

/// `s` escaped for a Typst string literal.
pub open spec fn typst_str_escape(s: Seq<char>) -> Seq<char>
    decreases s.len(),
{
    if s.len() == 0 { Seq::empty() } else { typst_str_escape(s.drop_last()) + typst_str_char(s.last()) }
}

/// `s` as a Typst string literal.
pub open spec fn typst_string(s: Seq<char>) -> Seq<char> {
    seq!['"'] + typst_str_escape(s) + seq!['"']
}

/// A fenced code block as a Typst raw block: `#raw(lang: "lang", block:
/// true, "text")`, without the `lang` argument when the info string is
/// empty.
pub open spec fn raw_block_spec(lang: Seq<char>, text: Seq<char>) -> Seq<char> {
    "\n#raw("@ + (if lang.len() > 0 { "lang: "@ + typst_string(lang) + ", "@ } else { Seq::empty() }) + "block: true, "@
        + typst_string(text) + ")\n"@
}

/// Whether the children of a node of this kind are items of an ordered list.
pub open spec fn is_ordered_list(k: MdKind) -> bool {
    k matches MdKind::List { ordered } && ordered
}

/// `text` followed by a line feed unless it already ends with one.
pub open spec fn end_line(text: Seq<char>) -> Seq<char> {
    if text.len() > 0 && text.last() == '\n' { text } else { text.push('\n') }
}

/// The first footnote definition named `name` among `notes`.
pub open spec fn note_named(notes: Seq<MdNode>, name: Seq<char>) -> Option<MdNode>
    decreases notes.len(),
{
    if notes.len() == 0 {
        None
    } else if notes[0].kind matches MdKind::FootnoteDefinition(n) && n@ == name {
        Some(notes[0])
    } else {
        note_named(notes.drop_first(), name)
    }
}

/// The Typst text after rendering the nodes `ns`, one after the other, onto
/// `buf`. `ordered` says whether their parent is an ordered list; `notes`
/// are the nodes where footnote definitions are looked up.
pub open spec fn render_nodes_spec(buf: Seq<char>, ns: Seq<MdNode>, cx: RenderCtx, ordered: bool, notes: Seq<MdNode>) -> Seq<char>
    decreases note_rank(cx, notes.len()), ns, 0nat,
{
    if ns.len() == 0 {
        buf
    } else {
        render_node_spec(render_nodes_spec(buf, ns.drop_last(), cx, ordered, notes), ns.last(), cx, ordered, notes)
    }
}

/// The Typst text after rendering the children of `n` onto `buf`.
pub open spec fn render_children_spec(buf: Seq<char>, n: MdNode, cx: RenderCtx, notes: Seq<MdNode>) -> Seq<char>
    decreases note_rank(cx, notes.len()), n, 0nat,
{
    render_nodes_spec(buf, n.children@, cx, is_ordered_list(n.kind), notes)
}

/// The Typst text after rendering node `n` onto `buf` in context `cx`;
/// `ordered` says whether its parent is an ordered list. A footnote
/// reference becomes `#footnote[...]` holding the text of the definition of
/// that name, which is not rendered where it stands.
pub open spec fn render_node_spec(buf: Seq<char>, n: MdNode, cx: RenderCtx, ordered: bool, notes: Seq<MdNode>) -> Seq<char>
    decreases note_rank(cx, notes.len()), n, 1nat,
{
    match n.kind {
        MdKind::Document => render_children_spec(buf, n, cx, notes),
        MdKind::Heading(level) => render_children_spec(
            buf + seq!['\n'] + repeat_spec('=', level as nat) + seq![' '],
            n,
            RenderCtx { in_table: false, ..cx },
            notes,
        ).push('\n'),
        MdKind::Paragraph => if cx.in_table {
            render_children_spec(buf, n, cx, notes)
        } else if cx.in_item {
            render_children_spec(buf, n, cx, notes).push('\n')
        } else {
            render_children_spec(buf.push('\n'), n, cx, notes).push('\n')
        },
        MdKind::Text(t) => buf + escape_spec(t@),
        MdKind::Strong => render_children_spec(buf.push('*'), n, cx, notes).push('*'),
        MdKind::Emph => render_children_spec(buf.push('_'), n, cx, notes).push('_'),
        MdKind::Strikethrough => render_children_spec(buf + "#strike["@, n, cx, notes).push(']'),
        MdKind::Code(lit) => buf.push('`') + lit@ + seq!['`'],
        MdKind::CodeBlock { info, literal } => buf + raw_block_spec(trim_spec(info@), literal@),
        MdKind::Math { display, literal } => if display {
            buf + "\n$ "@ + literal@ + " $\n"@
        } else {
            buf.push('$') + literal@ + seq!['$']
        },
        MdKind::Link(url) => render_children_spec(buf + "#link(\""@ + url@ + "\")["@, n, cx, notes).push(']'),
        MdKind::Image(url) => render_children_spec(buf + "\n#figure(\n  image(\""@ + url@ + "\"),\n  caption: ["@, n, cx, notes)
            + "],\n)\n"@,
        MdKind::BlockQuote => render_children_spec(buf + "\n#quote[\n"@, n, cx, notes) + "]\n"@,
        MdKind::ThematicBreak => buf + "\n#line(length: 100%)\n"@,
        MdKind::List { ordered: _ } => render_children_spec(buf.push('\n'), n, RenderCtx { in_item: false, ..cx }, notes),
        MdKind::Item => end_line(
            render_children_spec(buf + (if ordered { "+ "@ } else { "- "@ }), n, RenderCtx { in_item: true, ..cx }, notes),
        ),
        MdKind::TaskItem { checked } => end_line(
            render_children_spec(buf + (if checked { "- [x] "@ } else { "- [ ] "@ }), n, RenderCtx { in_item: true, ..cx }, notes),
        ),
        MdKind::Table { columns } => render_children_spec(
            buf + "\n#table(\n  columns: "@ + decimal_spec(columns as nat) + ",\n"@,
            n,
            RenderCtx { in_table: true, ..cx },
            notes,
        ) + ")\n"@,
        MdKind::TableRow => render_children_spec(buf, n, RenderCtx { in_table: true, ..cx }, notes),
        MdKind::TableCell => render_children_spec(buf + "  ["@, n, RenderCtx { in_table: true, ..cx }, notes) + "],\n"@,
        MdKind::SoftBreak => buf.push(' '),
        MdKind::LineBreak => buf + "\\\n"@,
        MdKind::Html => buf,
        MdKind::FootnoteDefinition(_) => buf,
        MdKind::FootnoteReference(name) => if note_opens(cx, notes.len()) {
            match note_named(notes, name@) {
                Some(d) => render_children_spec(
                    buf + "#footnote["@,
                    d,
                    RenderCtx { in_item: false, depth: (cx.depth + 1) as usize, ..cx },
                    notes,
                ).push(']'),
                None => buf + "#footnote[]"@,
            }
        } else {
            buf + "#footnote[]"@
        },
        MdKind::Other => render_children_spec(buf, n, cx, notes),
    }
}

} // verus!

verus! {

fn is_ordered_list_kind(k: &MdKind) -> (r: bool)
    ensures
        r == is_ordered_list(*k),
{
    match k {
        MdKind::List { ordered } => *ordered,
        _ => false,
    }
}

/// Whether two texts are equal.
fn same_text(a: &str, b: &str) -> (r: bool)
    ensures
        r == (a@ == b@),
{
    let x = crate::text::chars_of(a);
    let y = crate::text::chars_of(b);
    if x.len() != y.len() {
        return false;
    }
    let n = x.len();
    for i in 0..n
        invariant
            n == x@.len(),
            n == y@.len(),
            x@ == a@,
            y@ == b@,
            forall|j: int| 0 <= j < i ==> x@[j] == y@[j],
    {
        if x[i] != y[i] {
            return false;
        }
    }
    assert(a@ =~= b@);
    true
}

/// The position of the first footnote definition named `name` in `notes`.
fn find_note(notes: &Vec<MdNode>, name: &str) -> (r: Option<usize>)
    ensures
        r matches Some(i) ==> i < notes@.len() && note_named(notes@, name@) == Some(notes@[i as int]),
        r is None ==> note_named(notes@, name@) is None,
{
    let n = notes.len();
    let mut i: usize = 0;
    assert(notes@.skip(0) =~= notes@);
    while i < n
        invariant
            i <= n,
            n == notes@.len(),
            note_named(notes@, name@) == note_named(notes@.skip(i as int), name@),
        decreases n - i,
    {
        assert(notes@.skip(i as int)[0] == notes@[i as int]);
        assert(notes@.skip(i as int).drop_first() =~= notes@.skip(i + 1));
        match &notes[i].kind {
            MdKind::FootnoteDefinition(d) => {
                if same_text(d.as_str(), name) {
                    return Some(i);
                }
            },
            _ => {},
        }
        i = i + 1;
    }
    None
}

/// Appends `s` as a Typst string literal to `buf`.
fn push_typst_string(buf: &mut String, s: &str)
    ensures
        final(buf)@ == old(buf)@ + typst_string(s@),
{
    let ghost start = buf@;
    push_char(buf, '"');
    for ch in it: s.chars()
        invariant
            it.seq() == s@,
            buf@ == start + seq!['"'] + typst_str_escape(s@.take(it.index() as int)),
    {
        let ghost i = it.index() as int;
        let ghost b = buf@;
        assert(s@.take(i + 1).drop_last() =~= s@.take(i));
        if ch == '\\' || ch == '"' {
            push_char(buf, '\\');
            push_char(buf, ch);
        } else if ch == '\n' {
            push_char(buf, '\\');
            push_char(buf, 'n');
        } else if ch == '\r' {
            push_char(buf, '\\');
            push_char(buf, 'r');
        } else if ch == '\t' {
            push_char(buf, '\\');
            push_char(buf, 't');
        } else {
            push_char(buf, ch);
        }
        assert(buf@ =~= b + typst_str_char(ch));
        assert(buf@ =~= start + seq!['"'] + typst_str_escape(s@.take(i + 1)));
    }
    assert(s@.take(s@.len() as int) =~= s@);
    push_char(buf, '"');
    assert(buf@ =~= start + typst_string(s@));
}

/// Renders the nodes `ns` one after the other onto `buf`.
fn render_nodes(ns: &Vec<MdNode>, buf: &mut String, cx: RenderCtx, ordered: bool, notes: &Vec<MdNode>)
    ensures
        final(buf)@ == render_nodes_spec(old(buf)@, ns@, cx, ordered, notes@),
    decreases note_rank(cx, notes@.len()), ns, 0nat,
{
    let ghost start = buf@;
    let n = ns.len();
    for i in 0..n
        invariant
            n == ns@.len(),
            buf@ == render_nodes_spec(start, ns@.take(i as int), cx, ordered, notes@),
    {
        proof {
            assert(decreases_to!(ns => ns[i as int]));
        }
        render_node(&ns[i], buf, cx, ordered, notes);
        assert(ns@.take(i + 1).drop_last() =~= ns@.take(i as int));
    }
    assert(ns@.take(n as int) =~= ns@);
}

/// Renders the children of `node` onto `buf`.
fn render_children(node: &MdNode, buf: &mut String, cx: RenderCtx, notes: &Vec<MdNode>)
    ensures
        final(buf)@ == render_children_spec(old(buf)@, *node, cx, notes@),
    decreases note_rank(cx, notes@.len()), node, 0nat,
{
    proof {
        assert(decreases_to!(node.children => node.children@));
    }
    let ordered = is_ordered_list_kind(&node.kind);
    render_nodes(&node.children, buf, cx, ordered, notes);
}

/// Renders one node onto `buf` as Typst markup, in context `cx`. `ordered`
/// says whether its parent is an ordered list; footnote definitions are
/// looked up among `notes`.
pub fn render_node(node: &MdNode, buf: &mut String, cx: RenderCtx, ordered: bool, notes: &Vec<MdNode>)
    ensures
        final(buf)@ == render_node_spec(old(buf)@, *node, cx, ordered, notes@),
    decreases note_rank(cx, notes@.len()), node, 1nat,
{
    let ghost b0 = buf@;
    match &node.kind {
        MdKind::Document => render_children(node, buf, cx, notes),
        MdKind::Heading(level) => {
            push_char(buf, '\n');
            push_repeated(buf, '=', *level as usize);
            push_char(buf, ' ');
            assert(buf@ =~= b0 + seq!['\n'] + repeat_spec('=', *level as nat) + seq![' ']);
            render_children(node, buf, RenderCtx { in_table: false, ..cx }, notes);
            push_char(buf, '\n');
            assert(buf@ =~= render_node_spec(b0, *node, cx, ordered, notes@));
        },
        MdKind::Paragraph => {
            if !cx.in_table && !cx.in_item {
                push_char(buf, '\n');
            }
            render_children(node, buf, cx, notes);
            if !cx.in_table {
                push_char(buf, '\n');
            }
            assert(buf@ =~= render_node_spec(b0, *node, cx, ordered, notes@));
        },
        MdKind::Text(t) => {
            let e = escape_typst(t.as_str());
            buf.append(e.as_str());
            assert(buf@ =~= render_node_spec(b0, *node, cx, ordered, notes@));
        },
        MdKind::Strong => {
            push_char(buf, '*');
            render_children(node, buf, cx, notes);
            push_char(buf, '*');
            assert(buf@ =~= render_node_spec(b0, *node, cx, ordered, notes@));
        },
        MdKind::Emph => {
            push_char(buf, '_');
            render_children(node, buf, cx, notes);
            push_char(buf, '_');
            assert(buf@ =~= render_node_spec(b0, *node, cx, ordered, notes@));
        },
        MdKind::Strikethrough => {
            buf.append("#strike[");
            render_children(node, buf, cx, notes);
            push_char(buf, ']');
            assert(buf@ =~= render_node_spec(b0, *node, cx, ordered, notes@));
        },
        MdKind::Code(lit) => {
            push_char(buf, '`');
            buf.append(lit.as_str());
            push_char(buf, '`');
            assert(buf@ =~= render_node_spec(b0, *node, cx, ordered, notes@));
        },
        MdKind::CodeBlock { info, literal } => {
            let lang = trim(info.as_str());
            buf.append("\n#raw(");
            if lang.as_str().unicode_len() > 0 {
                buf.append("lang: ");
                push_typst_string(buf, lang.as_str());
                buf.append(", ");
            }
            buf.append("block: true, ");
            push_typst_string(buf, literal.as_str());
            buf.append(")\n");
            assert(buf@ =~= render_node_spec(b0, *node, cx, ordered, notes@));
        },
        MdKind::Math { display, literal } => {
            if *display {
                buf.append("\n$ ");
                buf.append(literal.as_str());
                buf.append(" $\n");
            } else {
                push_char(buf, '$');
                buf.append(literal.as_str());
                push_char(buf, '$');
            }
            assert(buf@ =~= render_node_spec(b0, *node, cx, ordered, notes@));
        },
        MdKind::Link(url) => {
            buf.append("#link(\"");
            buf.append(url.as_str());
            buf.append("\")[");
            render_children(node, buf, cx, notes);
            push_char(buf, ']');
            assert(buf@ =~= render_node_spec(b0, *node, cx, ordered, notes@));
        },
        MdKind::Image(url) => {
            buf.append("\n#figure(\n  image(\"");
            buf.append(url.as_str());
            buf.append("\"),\n  caption: [");
            render_children(node, buf, cx, notes);
            buf.append("],\n)\n");
            assert(buf@ =~= render_node_spec(b0, *node, cx, ordered, notes@));
        },
        MdKind::BlockQuote => {
            buf.append("\n#quote[\n");
            render_children(node, buf, cx, notes);
            buf.append("]\n");
            assert(buf@ =~= render_node_spec(b0, *node, cx, ordered, notes@));
        },
        MdKind::ThematicBreak => {
            buf.append("\n#line(length: 100%)\n");
            assert(buf@ =~= render_node_spec(b0, *node, cx, ordered, notes@));
        },
        MdKind::List { ordered: _ } => {
            push_char(buf, '\n');
            render_children(node, buf, RenderCtx { in_item: false, ..cx }, notes);
            assert(buf@ =~= render_node_spec(b0, *node, cx, ordered, notes@));
        },
        MdKind::Item => {
            if ordered {
                buf.append("+ ");
            } else {
                buf.append("- ");
            }
            render_children(node, buf, RenderCtx { in_item: true, ..cx }, notes);
            if !ends_with_newline(buf) {
                push_char(buf, '\n');
            }
            assert(buf@ =~= render_node_spec(b0, *node, cx, ordered, notes@));
        },
        MdKind::TaskItem { checked } => {
            if *checked {
                buf.append("- [x] ");
            } else {
                buf.append("- [ ] ");
            }
            render_children(node, buf, RenderCtx { in_item: true, ..cx }, notes);
            if !ends_with_newline(buf) {
                push_char(buf, '\n');
            }
            assert(buf@ =~= render_node_spec(b0, *node, cx, ordered, notes@));
        },
        MdKind::Table { columns } => {
            buf.append("\n#table(\n  columns: ");
            push_decimal(buf, *columns as u64);
            buf.append(",\n");
            render_children(node, buf, RenderCtx { in_table: true, ..cx }, notes);
            buf.append(")\n");
            assert(buf@ =~= render_node_spec(b0, *node, cx, ordered, notes@));
        },
        MdKind::TableRow => render_children(node, buf, RenderCtx { in_table: true, ..cx }, notes),
        MdKind::TableCell => {
            buf.append("  [");
            render_children(node, buf, RenderCtx { in_table: true, ..cx }, notes);
            buf.append("],\n");
            assert(buf@ =~= render_node_spec(b0, *node, cx, ordered, notes@));
        },
        MdKind::SoftBreak => push_char(buf, ' '),
        MdKind::LineBreak => buf.append("\\\n"),
        MdKind::Html => {},
        MdKind::FootnoteDefinition(_) => {},
        MdKind::FootnoteReference(name) => {
            if cx.depth < notes.len() {
                match find_note(notes, name.as_str()) {
                    Some(i) => {
                        buf.append("#footnote[");
                        render_children(&notes[i], buf, RenderCtx { in_item: false, depth: cx.depth + 1, ..cx }, notes);
                        push_char(buf, ']');
                    },
                    None => buf.append("#footnote[]"),
                }
            } else {
                buf.append("#footnote[]");
            }
            assert(buf@ =~= render_node_spec(b0, *node, cx, ordered, notes@));
        },
        MdKind::Other => render_children(node, buf, cx, notes),
    }
}

} // verus!

verus! {

/// A Typst source document.
pub struct TypstDocument {
    pub source: String,
}

/// The page, text, paragraph, heading and link settings that every
/// generated document starts with.
pub open spec fn typst_preamble() -> Seq<char> {
    "#set page(paper: \"a4\", margin: (x: 2.5cm, y: 3cm))\n"@
        + "#set text(font: \"New Computer Modern\", size: 11pt, lang: \"en\")\n"@
        + "#set par(justify: true, leading: 0.65em)\n"@
        + "#set heading(numbering: \"1.1\")\n"@
        + "#show link: underline\n"@
}

/// The centred, bold title block for `title`.
pub open spec fn title_block(title: Seq<char>) -> Seq<char> {
    "\n#align(center)[#text(18pt, weight: \"bold\")["@ + escape_spec(title) + "]]\n\n"@
}

/// The text of an optional `&str`.
pub open spec fn opt_str_view(s: Option<&str>) -> Option<Seq<char>> {
    match s {
        Some(t) => Some(t@),
        None => None,
    }
}

/// The Typst source for the parsed document `doc`: the preamble, the title
/// block if there is a title, a blank line, then the rendered children of
/// the document node.
pub open spec fn typst_source_spec(doc: MdNode, title: Option<Seq<char>>) -> Seq<char> {
    let head = match title {
        Some(t) => typst_preamble() + title_block(t),
        None => typst_preamble(),
    };
    render_children_spec(head.push('\n'), doc, top_ctx(), doc.children@)
}

/// The Markdown extensions that the converter switches on: tables,
/// strikethrough, task lists, footnotes and dollar-delimited math.
pub open spec fn typst_extensions() -> MdExtensions {
    MdExtensions { table: true, strikethrough: true, tasklist: true, footnotes: true, math_dollars: true }
}

/// Renders an already parsed Markdown document as Typst source.
pub fn render_markdown_tree(doc: &MdNode, title: Option<&str>) -> (r: TypstDocument)
    ensures
        r.source@ == typst_source_spec(*doc, opt_str_view(title)),
{
    let mut buf = String::new();
    buf.append("#set page(paper: \"a4\", margin: (x: 2.5cm, y: 3cm))\n");
    buf.append("#set text(font: \"New Computer Modern\", size: 11pt, lang: \"en\")\n");
    buf.append("#set par(justify: true, leading: 0.65em)\n");
    buf.append("#set heading(numbering: \"1.1\")\n");
    buf.append("#show link: underline\n");
    assert(buf@ =~= typst_preamble());
    match title {
        Some(t) => {
            let e = escape_typst(t);
            buf.append("\n#align(center)[#text(18pt, weight: \"bold\")[");
            buf.append(e.as_str());
            buf.append("]]\n\n");
            assert(buf@ =~= typst_preamble() + title_block(t@));
        },
        None => {},
    }
    push_char(&mut buf, '\n');
    render_children(doc, &mut buf, RenderCtx { in_table: false, in_item: false, depth: 0 }, &doc.children);
    TypstDocument { source: buf }
}

/// Converts GitHub-flavoured Markdown with math to Typst source: the text is
/// parsed by comrak with tables, strikethrough, task lists, footnotes and
/// dollar math switched on, and the tree is rendered by
/// [`render_markdown_tree`].
pub fn markdown_to_typst(markdown: &str, title: Option<&str>) -> (r: TypstDocument)
    ensures
        r.source@ == typst_source_spec(comrak_document(markdown@, typst_extensions()), opt_str_view(title)),
{
    let ext = MdExtensions { table: true, strikethrough: true, tasklist: true, footnotes: true, math_dollars: true };
    let doc = parse_markdown(markdown, &ext);
    render_markdown_tree(&doc, title)
}

} // verus!

verus! {

/// Escaping works character by character: the escape of a concatenation is
/// the concatenation of the escapes.
pub proof fn lemma_escape_concat(a: Seq<char>, b: Seq<char>)
    ensures
        escape_spec(a + b) == escape_spec(a) + escape_spec(b),
    decreases b.len(),
{
    if b.len() == 0 {
        assert(a + b =~= a);
        assert(escape_spec(a) + escape_spec(b) =~= escape_spec(a));
    } else {
        assert((a + b).drop_last() =~= a + b.drop_last());
        assert((a + b).last() == b.last());
        lemma_escape_concat(a, b.drop_last());
        assert(escape_spec(a) + escape_spec(b) =~= escape_spec(a) + escape_spec(b.drop_last())
            + escape_char_spec(b.last()));
    }
}

/// Reads escaped text back: a backslash followed by a Typst special
/// character stands for that character.
pub open spec fn unescape_spec(s: Seq<char>) -> Seq<char>
    decreases s.len(),
{
    if s.len() == 0 {
        s
    } else if s.len() >= 2 && s[0] == '\\' && is_typst_special(s[1]) {
        seq![s[1]] + unescape_spec(s.skip(2))
    } else {
        seq![s[0]] + unescape_spec(s.skip(1))
    }
}

/// Escaping loses nothing: reading the escaped text back gives the
/// original text.
pub proof fn lemma_unescape_escape(s: Seq<char>)
    ensures
        unescape_spec(escape_spec(s)) == s,
    decreases s.len(),
{
    if s.len() > 0 {
        let c = s[0];
        let rest = s.skip(1);
        assert(s =~= seq![c] + rest);
        lemma_escape_concat(seq![c], rest);
        lemma_escape_single(c);
        lemma_unescape_escape(rest);
        let e = escape_spec(s);
        let er = escape_spec(rest);
        if is_typst_special(c) {
            assert(e =~= seq!['\\', c] + er);
            assert(e.skip(2) =~= er);
        } else {
            assert(e =~= seq![c] + er);
            assert(e.skip(1) =~= er);
            if c == '\\' && e.len() >= 2 {
                // The next character starts the escape of the rest, which is
                // never a special character standing alone.
                assert(e[1] == er[0]);
                lemma_escape_first(rest);
            }
        }
        assert(unescape_spec(e) =~= s);
    }
}

proof fn lemma_escape_single(c: char)
    ensures
        escape_spec(seq![c]) == escape_char_spec(c),
{
    let e = Seq::<char>::empty();
    assert(seq![c].drop_last() =~= e);
    assert(escape_spec(e) == e);
    assert(e + escape_char_spec(c) =~= escape_char_spec(c));
}

/// The escape of a non-empty text starts with a backslash or with a
/// character that is not special.
proof fn lemma_escape_first(s: Seq<char>)
    requires
        s.len() > 0,
    ensures
        escape_spec(s)[0] == '\\' || !is_typst_special(escape_spec(s)[0]),
        escape_spec(s).len() > 0,
{
    let c = s[0];
    lemma_escape_concat(seq![c], s.skip(1));
    assert(s =~= seq![c] + s.skip(1));
    lemma_escape_single(c);
}

/// Escaped text has no bare special character: each Typst special
/// character in it comes right after a backslash.
pub proof fn lemma_escape_guards_specials(s: Seq<char>)
    ensures
        forall|i: int| 0 <= i < escape_spec(s).len() && is_typst_special(#[trigger] escape_spec(s)[i])
            ==> i > 0 && escape_spec(s)[i - 1] == '\\',
    decreases s.len(),
{
    if s.len() > 0 {
        lemma_escape_guards_specials(s.drop_last());
        let p = escape_spec(s.drop_last());
        let e = escape_spec(s);
        assert(e == p + escape_char_spec(s.last()));
        assert forall|i: int| 0 <= i < e.len() && is_typst_special(#[trigger] e[i]) implies i > 0 && e[i - 1] == '\\' by {
            if i < p.len() {
                assert(e[i] == p[i]);
                assert(p[i - 1] == e[i - 1]);
            }
        }
    }
}

} // verus!

verus! {

/// `s` begins with `p`.
pub open spec fn starts_with(s: Seq<char>, p: Seq<char>) -> bool {
    p.len() <= s.len() && forall|i: int| 0 <= i < p.len() ==> s[i] == p[i]
}

/// Rendering a node only appends to the text rendered so far.
pub proof fn lemma_render_node_appends(buf: Seq<char>, n: MdNode, cx: RenderCtx, ordered: bool, notes: Seq<MdNode>)
    ensures
        starts_with(render_node_spec(buf, n, cx, ordered, notes), buf),
    decreases note_rank(cx, notes.len()), n, 1nat,
{
    match n.kind {
        MdKind::Heading(level) => {
            let b = buf + seq!['\n'] + repeat_spec('=', level as nat) + seq![' '];
            lemma_render_children_appends(b, n, RenderCtx { in_table: false, ..cx }, notes);
        },
        MdKind::Paragraph => {
            lemma_render_children_appends(buf, n, cx, notes);
            lemma_render_children_appends(buf.push('\n'), n, cx, notes);
        },
        MdKind::Strong => lemma_render_children_appends(buf.push('*'), n, cx, notes),
        MdKind::Emph => lemma_render_children_appends(buf.push('_'), n, cx, notes),
        MdKind::Strikethrough => lemma_render_children_appends(buf + "#strike["@, n, cx, notes),
        MdKind::Link(url) => lemma_render_children_appends(buf + "#link(\""@ + url@ + "\")["@, n, cx, notes),
        MdKind::Image(url) => lemma_render_children_appends(
            buf + "\n#figure(\n  image(\""@ + url@ + "\"),\n  caption: ["@, n, cx, notes),
        MdKind::BlockQuote => lemma_render_children_appends(buf + "\n#quote[\n"@, n, cx, notes),
        MdKind::List { ordered: _ } => lemma_render_children_appends(buf.push('\n'), n, RenderCtx { in_item: false, ..cx }, notes),
        MdKind::Item => lemma_render_children_appends(
            buf + (if ordered { "+ "@ } else { "- "@ }), n, RenderCtx { in_item: true, ..cx }, notes),
        MdKind::TaskItem { checked } => lemma_render_children_appends(
            buf + (if checked { "- [x] "@ } else { "- [ ] "@ }), n, RenderCtx { in_item: true, ..cx }, notes),
        MdKind::Table { columns } => lemma_render_children_appends(
            buf + "\n#table(\n  columns: "@ + decimal_spec(columns as nat) + ",\n"@, n, RenderCtx { in_table: true, ..cx }, notes),
        MdKind::TableCell => lemma_render_children_appends(buf + "  ["@, n, RenderCtx { in_table: true, ..cx }, notes),
        MdKind::FootnoteReference(name) => {
            if note_opens(cx, notes.len()) {
                match note_named(notes, name@) {
                    Some(d) => lemma_render_children_appends(
                        buf + "#footnote["@, d, RenderCtx { in_item: false, depth: (cx.depth + 1) as usize, ..cx }, notes),
                    None => {},
                }
            }
        },
        MdKind::Document => lemma_render_children_appends(buf, n, cx, notes),
        MdKind::TableRow => lemma_render_children_appends(buf, n, RenderCtx { in_table: true, ..cx }, notes),
        MdKind::Other => lemma_render_children_appends(buf, n, cx, notes),
        _ => {},
    }
}

/// Rendering the children of a node only appends.
pub proof fn lemma_render_children_appends(buf: Seq<char>, n: MdNode, cx: RenderCtx, notes: Seq<MdNode>)
    ensures
        starts_with(render_children_spec(buf, n, cx, notes), buf),
    decreases note_rank(cx, notes.len()), n, 0nat,
{
    assert(decreases_to!(n.children => n.children@)) by {
        broadcast use vstd::std_specs::vec::axiom_vec_decreases_to_view;
    }
    lemma_render_nodes_appends(buf, n.children@, cx, is_ordered_list(n.kind), notes);
}

/// Rendering a list of nodes only appends.
pub proof fn lemma_render_nodes_appends(buf: Seq<char>, ns: Seq<MdNode>, cx: RenderCtx, ordered: bool, notes: Seq<MdNode>)
    ensures
        starts_with(render_nodes_spec(buf, ns, cx, ordered, notes), buf),
    decreases note_rank(cx, notes.len()), ns, 0nat,
{
    if ns.len() > 0 {
        lemma_render_nodes_appends(buf, ns.drop_last(), cx, ordered, notes);
        lemma_render_node_appends(render_nodes_spec(buf, ns.drop_last(), cx, ordered, notes), ns.last(), cx, ordered, notes);
    }
}

/// What rendering a node appends does not depend on the text rendered
/// before it: rendering onto `buf` gives `buf` followed by what rendering
/// onto empty text gives.
#[verifier::spinoff_prover]
#[verifier::rlimit(50)]
pub proof fn lemma_render_node_shift(buf: Seq<char>, n: MdNode, cx: RenderCtx, ordered: bool, notes: Seq<MdNode>)
    ensures
        render_node_spec(buf, n, cx, ordered, notes) == buf + render_node_spec(Seq::empty(), n, cx, ordered, notes),
    decreases note_rank(cx, notes.len()), n, 1nat,
{
    let e = Seq::<char>::empty();
    match n.kind {
        MdKind::Heading(level) => {
            let c2 = RenderCtx { in_table: false, ..cx };
            let p = seq!['\n'] + repeat_spec('=', level as nat) + seq![' '];
            lemma_render_children_shift(buf + p, n, c2, notes);
            lemma_render_children_shift(e + p, n, c2, notes);
            assert(buf + seq!['\n'] + repeat_spec('=', level as nat) + seq![' '] =~= buf + p);
            assert(e + seq!['\n'] + repeat_spec('=', level as nat) + seq![' '] =~= e + p);
            assert(render_node_spec(buf, n, cx, ordered, notes) =~= buf + render_node_spec(e, n, cx, ordered, notes));
        },
        MdKind::Paragraph => {
            lemma_render_children_shift(buf, n, cx, notes);
            lemma_render_children_shift(buf.push('\n'), n, cx, notes);
            lemma_render_children_shift(e.push('\n'), n, cx, notes);
            assert(render_node_spec(buf, n, cx, ordered, notes) =~= buf + render_node_spec(e, n, cx, ordered, notes));
        },
        MdKind::Strong => {
            lemma_render_children_shift(buf.push('*'), n, cx, notes);
            lemma_render_children_shift(e.push('*'), n, cx, notes);
            assert(render_node_spec(buf, n, cx, ordered, notes) =~= buf + render_node_spec(e, n, cx, ordered, notes));
        },
        MdKind::Emph => {
            lemma_render_children_shift(buf.push('_'), n, cx, notes);
            lemma_render_children_shift(e.push('_'), n, cx, notes);
            assert(render_node_spec(buf, n, cx, ordered, notes) =~= buf + render_node_spec(e, n, cx, ordered, notes));
        },
        MdKind::Strikethrough => {
            lemma_render_children_shift(buf + "#strike["@, n, cx, notes);
            lemma_render_children_shift(e + "#strike["@, n, cx, notes);
            assert(render_node_spec(buf, n, cx, ordered, notes) =~= buf + render_node_spec(e, n, cx, ordered, notes));
        },
        MdKind::Link(url) => {
            lemma_render_children_shift(buf + "#link(\""@ + url@ + "\")["@, n, cx, notes);
            lemma_render_children_shift(e + "#link(\""@ + url@ + "\")["@, n, cx, notes);
            assert(render_node_spec(buf, n, cx, ordered, notes) =~= buf + render_node_spec(e, n, cx, ordered, notes));
        },
        MdKind::Image(url) => {
            lemma_render_children_shift(buf + "\n#figure(\n  image(\""@ + url@ + "\"),\n  caption: ["@, n, cx, notes);
            lemma_render_children_shift(e + "\n#figure(\n  image(\""@ + url@ + "\"),\n  caption: ["@, n, cx, notes);
            assert(render_node_spec(buf, n, cx, ordered, notes) =~= buf + render_node_spec(e, n, cx, ordered, notes));
        },
        MdKind::BlockQuote => {
            lemma_render_children_shift(buf + "\n#quote[\n"@, n, cx, notes);
            lemma_render_children_shift(e + "\n#quote[\n"@, n, cx, notes);
            assert(render_node_spec(buf, n, cx, ordered, notes) =~= buf + render_node_spec(e, n, cx, ordered, notes));
        },
        MdKind::List { ordered: _ } => {
            lemma_render_children_shift(buf.push('\n'), n, RenderCtx { in_item: false, ..cx }, notes);
            lemma_render_children_shift(e.push('\n'), n, RenderCtx { in_item: false, ..cx }, notes);
            assert(render_node_spec(buf, n, cx, ordered, notes) =~= buf + render_node_spec(e, n, cx, ordered, notes));
        },
        MdKind::Item => {
            let p = if ordered { "+ "@ } else { "- "@ };
            let c2 = RenderCtx { in_item: true, ..cx };
            lemma_render_children_shift(buf + p, n, c2, notes);
            lemma_render_children_shift(e + p, n, c2, notes);
            lemma_render_children_appends(e + p, n, c2, notes);
            reveal_strlit("+ ");
            reveal_strlit("- ");
            let x = render_children_spec(e + p, n, c2, notes);
            assert(x.len() > 0);
            assert((buf + x).last() == x.last());
            assert(end_line(buf + x) =~= buf + end_line(x));
            assert(render_node_spec(buf, n, cx, ordered, notes) =~= buf + render_node_spec(e, n, cx, ordered, notes));
        },
        MdKind::TaskItem { checked } => {
            let p = if checked { "- [x] "@ } else { "- [ ] "@ };
            let c2 = RenderCtx { in_item: true, ..cx };
            lemma_render_children_shift(buf + p, n, c2, notes);
            lemma_render_children_shift(e + p, n, c2, notes);
            lemma_render_children_appends(e + p, n, c2, notes);
            reveal_strlit("- [x] ");
            reveal_strlit("- [ ] ");
            let x = render_children_spec(e + p, n, c2, notes);
            assert(x.len() > 0);
            assert((buf + x).last() == x.last());
            assert(end_line(buf + x) =~= buf + end_line(x));
            assert(render_node_spec(buf, n, cx, ordered, notes) =~= buf + render_node_spec(e, n, cx, ordered, notes));
        },
        MdKind::Table { columns } => {
            let c2 = RenderCtx { in_table: true, ..cx };
            lemma_render_children_shift(buf + "\n#table(\n  columns: "@ + decimal_spec(columns as nat) + ",\n"@, n, c2, notes);
            lemma_render_children_shift(e + "\n#table(\n  columns: "@ + decimal_spec(columns as nat) + ",\n"@, n, c2, notes);
            assert(render_node_spec(buf, n, cx, ordered, notes) =~= buf + render_node_spec(e, n, cx, ordered, notes));
        },
        MdKind::TableRow => {
            lemma_render_children_shift(buf, n, RenderCtx { in_table: true, ..cx }, notes);
            assert(render_node_spec(buf, n, cx, ordered, notes) =~= buf + render_node_spec(e, n, cx, ordered, notes));
        },
        MdKind::TableCell => {
            lemma_render_children_shift(buf + "  ["@, n, RenderCtx { in_table: true, ..cx }, notes);
            lemma_render_children_shift(e + "  ["@, n, RenderCtx { in_table: true, ..cx }, notes);
            assert(render_node_spec(buf, n, cx, ordered, notes) =~= buf + render_node_spec(e, n, cx, ordered, notes));
        },
        MdKind::FootnoteReference(name) => {
            if note_opens(cx, notes.len()) {
                match note_named(notes, name@) {
                    Some(d) => {
                        let c2 = RenderCtx { in_item: false, depth: (cx.depth + 1) as usize, ..cx };
                        lemma_render_children_shift(buf + "#footnote["@, d, c2, notes);
                        lemma_render_children_shift(e + "#footnote["@, d, c2, notes);
                    },
                    None => {},
                }
            }
            assert(render_node_spec(buf, n, cx, ordered, notes) =~= buf + render_node_spec(e, n, cx, ordered, notes));
        },
        MdKind::Document => lemma_render_children_shift(buf, n, cx, notes),
        MdKind::Other => lemma_render_children_shift(buf, n, cx, notes),
        _ => {
            assert(render_node_spec(buf, n, cx, ordered, notes) =~= buf + render_node_spec(e, n, cx, ordered, notes));
        },
    }
}

/// What rendering the children of a node appends does not depend on the
/// text rendered before.
pub proof fn lemma_render_children_shift(buf: Seq<char>, n: MdNode, cx: RenderCtx, notes: Seq<MdNode>)
    ensures
        render_children_spec(buf, n, cx, notes) == buf + render_children_spec(Seq::empty(), n, cx, notes),
    decreases note_rank(cx, notes.len()), n, 0nat,
{
    assert(decreases_to!(n.children => n.children@)) by {
        broadcast use vstd::std_specs::vec::axiom_vec_decreases_to_view;
    }
    lemma_render_nodes_shift(buf, n.children@, cx, is_ordered_list(n.kind), notes);
}

/// What rendering a list of nodes appends does not depend on the text
/// rendered before.
pub proof fn lemma_render_nodes_shift(buf: Seq<char>, ns: Seq<MdNode>, cx: RenderCtx, ordered: bool, notes: Seq<MdNode>)
    ensures
        render_nodes_spec(buf, ns, cx, ordered, notes) == buf + render_nodes_spec(Seq::empty(), ns, cx, ordered, notes),
    decreases note_rank(cx, notes.len()), ns, 0nat,
{
    let e = Seq::<char>::empty();
    if ns.len() == 0 {
        assert(buf + e =~= buf);
    } else {
        lemma_render_nodes_shift(buf, ns.drop_last(), cx, ordered, notes);
        let r = render_nodes_spec(e, ns.drop_last(), cx, ordered, notes);
        lemma_render_node_shift(buf + r, ns.last(), cx, ordered, notes);
        lemma_render_node_shift(r, ns.last(), cx, ordered, notes);
        assert(buf + r + render_node_spec(e, ns.last(), cx, ordered, notes) =~= buf + (r + render_node_spec(e, ns.last(), cx, ordered, notes)));
    }
}

/// Reads the contents of a Typst string literal back: a backslash followed
/// by `n`, `r` or `t` stands for a line feed, carriage return or tab, and
/// followed by any other character for that character.
pub open spec fn typst_unescape(s: Seq<char>) -> Seq<char>
    decreases s.len(),
{
    if s.len() == 0 {
        s
    } else if s[0] == '\\' && s.len() >= 2 {
        seq![if s[1] == 'n' { '\n' } else if s[1] == 'r' { '\r' } else if s[1] == 't' { '\t' } else { s[1] }]
            + typst_unescape(s.skip(2))
    } else {
        seq![s[0]] + typst_unescape(s.skip(1))
    }
}

proof fn lemma_typst_escape_concat(a: Seq<char>, b: Seq<char>)
    ensures
        typst_str_escape(a + b) == typst_str_escape(a) + typst_str_escape(b),
    decreases b.len(),
{
    if b.len() == 0 {
        assert(a + b =~= a);
        assert(typst_str_escape(a) + typst_str_escape(b) =~= typst_str_escape(a));
    } else {
        assert((a + b).drop_last() =~= a + b.drop_last());
        assert((a + b).last() == b.last());
        lemma_typst_escape_concat(a, b.drop_last());
        assert(typst_str_escape(a) + typst_str_escape(b) =~= typst_str_escape(a) + typst_str_escape(b.drop_last())
            + typst_str_char(b.last()));
    }
}

/// A code block's text loses nothing in its Typst string literal: reading
/// the escaped text back gives every character of it, tabs, line breaks,
/// quotes and backslashes included.
pub proof fn lemma_typst_string_reads_back(s: Seq<char>)
    ensures
        typst_unescape(typst_str_escape(s)) == s,
        typst_string(s) == seq!['"'] + typst_str_escape(s) + seq!['"'],
    decreases s.len(),
{
    if s.len() > 0 {
        let c = s[0];
        let rest = s.skip(1);
        assert(s =~= seq![c] + rest);
        lemma_typst_escape_concat(seq![c], rest);
        assert(seq![c].drop_last() =~= Seq::<char>::empty());
        assert(typst_str_escape(Seq::<char>::empty()) == Seq::<char>::empty());
        assert(seq![c].last() == c);
        assert(typst_str_escape(seq![c]) == typst_str_escape(seq![c].drop_last()) + typst_str_char(c));
        assert(typst_str_escape(seq![c]) =~= typst_str_char(c));
        lemma_typst_string_reads_back(rest);
        let e = typst_str_char(c) + typst_str_escape(rest);
        if typst_str_char(c).len() == 2 {
            assert(e[0] == '\\');
            assert(e.skip(2) =~= typst_str_escape(rest));
        } else {
            assert(e.skip(1) =~= typst_str_escape(rest));
        }
        assert(typst_unescape(e) =~= s);
    }
}

/// Every converted document starts with the Typst preamble, followed by the
/// title block when a title is given.
pub proof fn lemma_typst_source_starts_with_preamble(doc: MdNode, title: Option<Seq<char>>)
    ensures
        starts_with(typst_source_spec(doc, title), typst_preamble()),
        title matches Some(t) ==> starts_with(typst_source_spec(doc, title), typst_preamble() + title_block(t)),
{
    let head = match title {
        Some(t) => typst_preamble() + title_block(t),
        None => typst_preamble(),
    };
    lemma_render_children_appends(head.push('\n'), doc, top_ctx(), doc.children@);
}

} // verus!

verus! {

/// The reply after the Typst source was written to `output_path`: that
/// path, and that no PDF was compiled.
pub open spec fn typst_reply_spec(output_path: Seq<char>) -> Seq<char> {
    "{\"output_path\": "@ + json_string_spec(output_path) + ", \"compiled\": false}"@
}

/// The reply after the Typst source was written to `output_path` (see
/// [`typst_reply_spec`]).
pub fn typst_reply(output_path: &str) -> (r: String)
    ensures
        r@ == typst_reply_spec(output_path@),
{
    let mut r = String::from_str("{\"output_path\": ");
    push_json_string(&mut r, output_path);
    r.append(", \"compiled\": false}");
    r
}

} // verus!

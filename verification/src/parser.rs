use vstd::prelude::*;

use crate::dom::Dom;
use crate::kinds::{InlineFormatType, ListType, format_of_tag, list_tag};
use crate::tree::{ContainerNode, DomNode, KindView, lemma_decreases_children, same_content, lemma_same_children_iff};

verus! {

/// An element of parsed HTML: its tag name, its attributes and its
/// children, as an HTML parser hands them over.
#[derive(Debug)]
pub struct ParsedElement {
    pub name: Vec<char>,
    pub attrs: Vec<(Vec<char>, Vec<char>)>,
    pub children: Vec<ParsedNode>,
}

/// A node of parsed HTML.
#[derive(Debug)]
pub enum ParsedNode {
    Element(ParsedElement),
    Text(Vec<char>),
}

/// The content of a node, without its handle.
pub enum Shape {
    Container {
        name: Seq<char>,
        kind: KindView,
        attrs: Option<Seq<(Seq<char>, Seq<char>)>>,
        children: Seq<Shape>,
    },
    Text(Seq<char>),
    LineBreak,
    Zwsp(Seq<char>),
    Mention(Seq<char>),
}

/// The content of a node.
pub open spec fn shape_of(n: DomNode) -> Shape
    decreases n, 0int,
{
    match n {
        DomNode::Container(c) => {
            proof {
                lemma_decreases_children(n);
            }
            Shape::Container {
                name: c.spec_name(),
                kind: c.spec_kind(),
                attrs: c.spec_attrs(),
                children: shapes_of(c.spec_children(), c.spec_children().len() as int),
            }
        },
        DomNode::Text(t) => Shape::Text(t.spec_data()),
        DomNode::LineBreak(_) => Shape::LineBreak,
        DomNode::Zwsp(z) => Shape::Zwsp(z.spec_data()),
        DomNode::Mention(m) => Shape::Mention(m.spec_display_text()),
    }
}

/// The contents of the first `k` nodes of `s`.
pub open spec fn shapes_of(s: Seq<DomNode>, k: int) -> Seq<Shape>
    decreases s, k,
{
    if k <= 0 || k > s.len() {
        Seq::empty()
    } else {
        shapes_of(s, k - 1).push(shape_of(s[k - 1]))
    }
}

/// A parsed element is larger than the list of its children.
pub proof fn lemma_element_decreases(n: ParsedNode)
    requires
        n is Element,
    ensures
        decreases_to!(n => n->Element_0.children@),
{
    let e = n->Element_0;
    assert(decreases_to!(n => e.children@));
}

/// The value of the first attribute named `key`, or nothing.
pub open spec fn attr_value(attrs: Seq<(Vec<char>, Vec<char>)>, key: Seq<char>) -> Seq<char>
    decreases attrs.len(),
{
    if attrs.len() == 0 {
        Seq::empty()
    } else if attrs[0].0@ == key {
        attrs[0].1@
    } else {
        attr_value(attrs.skip(1), key)
    }
}

/// What a parsed element becomes, by its tag name.
#[derive(Clone, Copy, Debug, PartialEq, Eq, Structural)]
pub enum TagKind {
    Format,
    LineBreak,
    Ordered,
    Unordered,
    ListItem,
    Link,
    CodeBlock,
    Quote,
    Html,
    Paragraph,
    Other,
}

/// What an element with tag name `t` becomes.
pub open spec fn tag_kind(t: Seq<char>) -> TagKind {
    if is_format_tag(t) {
        TagKind::Format
    } else if t == "br"@ {
        TagKind::LineBreak
    } else if t == "ol"@ {
        TagKind::Ordered
    } else if t == "ul"@ {
        TagKind::Unordered
    } else if t == "li"@ {
        TagKind::ListItem
    } else if t == "a"@ {
        TagKind::Link
    } else if t == "pre"@ {
        TagKind::CodeBlock
    } else if t == "blockquote"@ {
        TagKind::Quote
    } else if t == "html"@ {
        TagKind::Html
    } else if t == "p"@ {
        TagKind::Paragraph
    } else {
        TagKind::Other
    }
}

/// The tags of inline formatting.
pub open spec fn is_format_tag(t: Seq<char>) -> bool {
    t == "b"@ || t == "code"@ || t == "del"@ || t == "em"@ || t == "i"@ || t == "strong"@ || t == "u"@
}

/// A non-breaking space on its own, as a character or as an entity.
pub open spec fn is_nbsp_text(t: Seq<char>) -> bool {
    t == seq!['\u{A0}'] || t == "&nbsp;"@
}

/// The lines of `t`, split at each `\n`.
pub open spec fn split_lines(t: Seq<char>) -> Seq<Seq<char>>
    decreases t.len(),
{
    if t.len() == 0 {
        seq![Seq::empty()]
    } else if t.last() == '\n' {
        split_lines(t.drop_last()).push(Seq::empty())
    } else {
        let s = split_lines(t.drop_last());
        s.update(s.len() - 1, s.last().push(t.last()))
    }
}

/// The nodes made of the first `k` lines of a text inside a code block:
/// each line that is neither empty nor a non-breaking space becomes text,
/// and a line break follows every line but the last.
pub open spec fn line_shapes(lines: Seq<Seq<char>>, k: int) -> Seq<Shape>
    decreases k,
{
    if k <= 0 || k > lines.len() {
        Seq::empty()
    } else {
        line_shapes(lines, k - 1) + (if lines[k - 1].len() > 0 && !is_nbsp_text(lines[k - 1]) {
            seq![Shape::Text(lines[k - 1])]
        } else {
            Seq::empty()
        }) + (if k < lines.len() {
            seq![Shape::LineBreak]
        } else {
            Seq::empty()
        })
    }
}

/// The nodes made of a text: outside a code block the text itself, unless
/// it is a lone non-breaking space.
pub open spec fn text_shapes(t: Seq<char>, in_code: bool) -> Seq<Shape> {
    if in_code {
        line_shapes(split_lines(t), split_lines(t).len() as int)
    } else if is_nbsp_text(t) {
        Seq::empty()
    } else {
        seq![Shape::Text(t)]
    }
}

/// A new container's content.
pub open spec fn container_shape(
    name: Seq<char>,
    kind: KindView,
    attrs: Option<Seq<(Seq<char>, Seq<char>)>>,
    children: Seq<Shape>,
) -> Shape {
    Shape::Container { name, kind, attrs, children }
}

/// The nodes a parsed node becomes; `in_code` tells whether it is inside a
/// code block. Formatting, lists, list items, links, code blocks, quotes
/// and paragraphs become containers of the nodes their children become
/// (but `code` inside a code block adds no container); `br` becomes a line
/// break; the children of `html` stand in its place; other tags are
/// dropped with their content.
pub open spec fn conv_node(n: ParsedNode, in_code: bool) -> Seq<Shape>
    decreases n, 0int,
{
    match n {
        ParsedNode::Text(t) => text_shapes(t@, in_code),
        ParsedNode::Element(e) => {
            proof {
                lemma_element_decreases(n);
            }
            let tag = e.name@;
            let ch = e.children@;
            match tag_kind(tag) {
                TagKind::Format => if tag == "code"@ && in_code {
                    conv_nodes(ch, ch.len() as int, in_code)
                } else {
                    seq![container_shape(tag, KindView::Formatting(format_of_tag(tag).unwrap()), None, conv_nodes(ch, ch.len() as int, in_code))]
                },
                TagKind::LineBreak => seq![Shape::LineBreak],
                TagKind::Ordered => seq![container_shape(list_tag(ListType::Ordered), KindView::List(ListType::Ordered), None, conv_nodes(ch, ch.len() as int, in_code))],
                TagKind::Unordered => seq![container_shape(list_tag(ListType::Unordered), KindView::List(ListType::Unordered), None, conv_nodes(ch, ch.len() as int, in_code))],
                TagKind::ListItem => seq![container_shape("li"@, KindView::ListItem, None, conv_nodes(ch, ch.len() as int, in_code))],
                TagKind::Link => {
                    let href = attr_value(e.attrs@, "href"@);
                    seq![container_shape("a"@, KindView::Link(href), Some(seq![("href"@, href)]), conv_nodes(ch, ch.len() as int, in_code))]
                },
                TagKind::CodeBlock => seq![container_shape("pre"@, KindView::CodeBlock, None, conv_nodes(ch, ch.len() as int, true))],
                TagKind::Quote => seq![container_shape("blockquote"@, KindView::Quote, None, conv_nodes(ch, ch.len() as int, in_code))],
                TagKind::Html => conv_nodes(ch, ch.len() as int, in_code),
                TagKind::Paragraph => seq![container_shape("p"@, KindView::Paragraph, None, conv_nodes(ch, ch.len() as int, in_code))],
                TagKind::Other => Seq::empty(),
            }
        },
    }
}

/// The nodes the first `k` parsed nodes of `s` become.
pub open spec fn conv_nodes(s: Seq<ParsedNode>, k: int, in_code: bool) -> Seq<Shape>
    decreases s, k,
{
    if k <= 0 || k > s.len() {
        Seq::empty()
    } else {
        conv_nodes(s, k - 1, in_code) + conv_node(s[k - 1], in_code)
    }
}


proof fn lemma_shapes_prefix(s: Seq<DomNode>, t: Seq<DomNode>, k: int)
    requires
        0 <= k <= s.len(),
        k <= t.len(),
        forall|j: int| 0 <= j < k ==> s[j] == t[j],
    ensures
        shapes_of(s, k) == shapes_of(t, k),
    decreases k,
{
    if k > 0 {
        lemma_shapes_prefix(s, t, k - 1);
    }
}

proof fn lemma_shapes_len(s: Seq<DomNode>, k: int)
    requires
        0 <= k <= s.len(),
    ensures
        shapes_of(s, k).len() == k,
    decreases k,
{
    if k > 0 {
        lemma_shapes_len(s, k - 1);
    }
}

proof fn lemma_shapes_push(s: Seq<DomNode>, x: DomNode)
    ensures
        shapes_of(s.push(x), s.len() + 1 as int) == shapes_of(s, s.len() as int).push(shape_of(x)),
{
    lemma_shapes_prefix(s, s.push(x), s.len() as int);
}

proof fn lemma_shapes_append(s: Seq<DomNode>, t: Seq<DomNode>)
    ensures
        shapes_of(s + t, (s + t).len() as int) == shapes_of(s, s.len() as int) + shapes_of(t, t.len() as int),
    decreases t.len(),
{
    if t.len() == 0 {
        assert(s + t =~= s);
        assert(shapes_of(s, s.len() as int) + Seq::<Shape>::empty() =~= shapes_of(s, s.len() as int));
    } else {
        lemma_shapes_append(s, t.drop_last());
        assert(s + t =~= (s + t.drop_last()).push(t.last()));
        lemma_shapes_push(s + t.drop_last(), t.last());
        lemma_shapes_push(t.drop_last(), t.last());
        assert(t.drop_last().push(t.last()) =~= t);
        assert(shapes_of(s, s.len() as int) + shapes_of(t.drop_last(), t.drop_last().len() as int).push(shape_of(t.last())) =~= (shapes_of(s, s.len() as int) + shapes_of(t.drop_last(), t.drop_last().len() as int)).push(shape_of(t.last())));
    }
}

/// Nodes with the same content have the same shape.
pub proof fn lemma_same_content_shape(a: DomNode, b: DomNode)
    requires
        same_content(a, b),
    ensures
        shape_of(a) == shape_of(b),
    decreases a,
{
    match (a, b) {
        (DomNode::Container(x), DomNode::Container(y)) => {
            lemma_same_children_iff(x.spec_children(), y.spec_children());
            lemma_same_children_shapes(x, y, x.spec_children().len() as int);
        },
        _ => {},
    }
}

proof fn lemma_same_children_shapes(x: ContainerNode, y: ContainerNode, k: int)
    requires
        x.spec_children().len() == y.spec_children().len(),
        0 <= k <= x.spec_children().len(),
        forall|i: int| 0 <= i < x.spec_children().len() ==> #[trigger] same_content(x.spec_children()[i], y.spec_children()[i]),
    ensures
        shapes_of(x.spec_children(), k) == shapes_of(y.spec_children(), k),
    decreases x, k,
{
    if k > 0 {
        lemma_same_children_shapes(x, y, k - 1);
        crate::tree::lemma_container_child_decreases(x, k - 1);
        lemma_same_content_shape(x.spec_children()[k - 1], y.spec_children()[k - 1]);
    }
}

/// The characters of the tag names that parsing compares against.
pub proof fn lemma_literals()
    ensures
        "b"@ == seq!['b'],
        "code"@ == seq!['c', 'o', 'd', 'e'],
        "del"@ == seq!['d', 'e', 'l'],
        "em"@ == seq!['e', 'm'],
        "i"@ == seq!['i'],
        "strong"@ == seq!['s', 't', 'r', 'o', 'n', 'g'],
        "u"@ == seq!['u'],
        "br"@ == seq!['b', 'r'],
        "ol"@ == seq!['o', 'l'],
        "ul"@ == seq!['u', 'l'],
        "li"@ == seq!['l', 'i'],
        "a"@ == seq!['a'],
        "href"@ == seq!['h', 'r', 'e', 'f'],
        "pre"@ == seq!['p', 'r', 'e'],
        "blockquote"@ == seq!['b', 'l', 'o', 'c', 'k', 'q', 'u', 'o', 't', 'e'],
        "html"@ == seq!['h', 't', 'm', 'l'],
        "p"@ == seq!['p'],
{
    reveal_strlit("b");
    reveal_strlit("code");
    reveal_strlit("del");
    reveal_strlit("em");
    reveal_strlit("i");
    reveal_strlit("strong");
    reveal_strlit("u");
    reveal_strlit("br");
    reveal_strlit("ol");
    reveal_strlit("ul");
    reveal_strlit("li");
    reveal_strlit("a");
    reveal_strlit("href");
    reveal_strlit("pre");
    reveal_strlit("blockquote");
    reveal_strlit("html");
    reveal_strlit("p");
    assert("b"@ =~= seq!['b']);
    assert("code"@ =~= seq!['c', 'o', 'd', 'e']);
    assert("del"@ =~= seq!['d', 'e', 'l']);
    assert("em"@ =~= seq!['e', 'm']);
    assert("i"@ =~= seq!['i']);
    assert("strong"@ =~= seq!['s', 't', 'r', 'o', 'n', 'g']);
    assert("u"@ =~= seq!['u']);
    assert("br"@ =~= seq!['b', 'r']);
    assert("ol"@ =~= seq!['o', 'l']);
    assert("ul"@ =~= seq!['u', 'l']);
    assert("li"@ =~= seq!['l', 'i']);
    assert("a"@ =~= seq!['a']);
    assert("href"@ =~= seq!['h', 'r', 'e', 'f']);
    assert("pre"@ =~= seq!['p', 'r', 'e']);
    assert("blockquote"@ =~= seq!['b', 'l', 'o', 'c', 'k', 'q', 'u', 'o', 't', 'e']);
    assert("html"@ =~= seq!['h', 't', 'm', 'l']);
    assert("p"@ =~= seq!['p']);
}

/// True when `tag` is the literal `lit`.
fn tag_is(tag: &Vec<char>, lit: &str) -> (b: bool)
    ensures
        b == (tag@ == lit@),
{
    let l = crate::text::chars_of(lit);
    crate::kinds::chars_eq(tag, &l)
}

/// The value of the first attribute named `key`, or nothing.
fn attr_value_exec(attrs: &Vec<(Vec<char>, Vec<char>)>, key: &str) -> (v: Vec<char>)
    ensures
        v@ == attr_value(attrs@, key@),
{
    let k = crate::text::chars_of(key);
    let mut i: usize = 0;
    assert(attrs@.skip(0) =~= attrs@);
    while i < attrs.len()
        invariant
            i <= attrs@.len(),
            k@ == key@,
            attr_value(attrs@, key@) == attr_value(attrs@.skip(i as int), key@),
        decreases attrs@.len() - i,
    {
        assert(attrs@.skip(i as int)[0] == attrs@[i as int]);
        assert(attrs@.skip(i as int).skip(1) =~= attrs@.skip(i + 1));
        if crate::kinds::chars_eq(&attrs[i].0, &k) {
            let v = crate::leaf_nodes::copy_range(&attrs[i].1, 0, attrs[i].1.len());
            assert(attrs@[i as int].1@.subrange(0, attrs@[i as int].1@.len() as int) =~= attrs@[i as int].1@);
            return v;
        }
        i += 1;
    }
    assert(attrs@.skip(i as int) =~= Seq::<(Vec<char>, Vec<char>)>::empty());
    Vec::new()
}

proof fn lemma_line_shapes_same(l1: Seq<Seq<char>>, l2: Seq<Seq<char>>, k: int)
    requires
        0 <= k < l1.len(),
        k < l2.len(),
        forall|j: int| 0 <= j < k ==> l1[j] == l2[j],
    ensures
        line_shapes(l1, k) == line_shapes(l2, k),
    decreases k,
{
    if k > 0 {
        lemma_line_shapes_same(l1, l2, k - 1);
    }
}

proof fn lemma_split_lines_len(t: Seq<char>)
    ensures
        split_lines(t).len() >= 1,
    decreases t.len(),
{
    if t.len() > 0 {
        lemma_split_lines_len(t.drop_last());
    }
}

/// The nodes made of a text; `in_code` tells whether it is inside a code
/// block, where its line breaks become line break nodes.
fn convert_text(t: &Vec<char>, in_code: bool) -> (out: Vec<DomNode>)
    ensures
        shapes_of(out@, out@.len() as int) == text_shapes(t@, in_code),
{
    let nbsp = vec!['\u{A0}'];
    assert(nbsp@ =~= seq!['\u{A0}']);
    let mut out: Vec<DomNode> = Vec::new();
    if !in_code {
        if crate::kinds::chars_eq(t, &nbsp) || tag_is(t, "&nbsp;") {
            return out;
        }
        let text = crate::leaf_nodes::copy_range(t, 0, t.len());
        assert(t@.subrange(0, t@.len() as int) =~= t@);
        let n = DomNode::new_text(text);
        proof {
            lemma_shapes_push(out@, n);
        }
        out.push(n);
        assert(shapes_of(out@, 1) =~= seq![Shape::Text(t@)]);
        return out;
    }
    let mut cur: Vec<char> = Vec::new();
    let mut i: usize = 0;
    proof {
        assert(t@.take(0) =~= Seq::<char>::empty());
    }
    while i < t.len()
        invariant
            i <= t@.len(),
            nbsp@ == seq!['\u{A0}'],
            split_lines(t@.take(i as int)).len() >= 1,
            cur@ == split_lines(t@.take(i as int)).last(),
            shapes_of(out@, out@.len() as int) == line_shapes(split_lines(t@.take(i as int)), split_lines(t@.take(i as int)).len() - 1),
        decreases t@.len() - i,
    {
        let ghost lines = split_lines(t@.take(i as int));
        let ghost cnt = lines.len() as int;
        assert(t@.take(i + 1).drop_last() =~= t@.take(i as int));
        assert(t@.take(i + 1).last() == t@[i as int]);
        let c = t[i];
        if c == '\n' {
            let ghost new_lines = lines.push(Seq::<char>::empty());
            assert(split_lines(t@.take(i + 1)) == new_lines);
            proof {
                lemma_line_shapes_same(new_lines, lines, cnt - 1);
                assert(new_lines[cnt - 1] == lines[cnt - 1]);
            }
            let keep = cur.len() > 0 && !(crate::kinds::chars_eq(&cur, &nbsp) || tag_is(&cur, "&nbsp;"));
            if keep {
                let ghost before = out@;
                let text = crate::leaf_nodes::copy_range(&cur, 0, cur.len());
                assert(cur@.subrange(0, cur@.len() as int) =~= cur@);
                let n = DomNode::new_text(text);
                proof {
                    lemma_shapes_push(out@, n);
                }
                out.push(n);
            }
            let b = DomNode::new_line_break();
            proof {
                lemma_shapes_push(out@, b);
            }
            out.push(b);
            cur = Vec::new();
            assert(shapes_of(out@, out@.len() as int) =~= line_shapes(new_lines, cnt));
        } else {
            let ghost new_lines = lines.update(cnt - 1, lines[cnt - 1].push(c));
            assert(split_lines(t@.take(i + 1)) == new_lines);
            proof {
                lemma_line_shapes_same(new_lines, lines, cnt - 1);
            }
            cur.push(c);
        }
        i += 1;
    }
    assert(t@.take(i as int) =~= t@);
    let ghost lines = split_lines(t@);
    let ghost cnt = lines.len() as int;
    let keep = cur.len() > 0 && !(crate::kinds::chars_eq(&cur, &nbsp) || tag_is(&cur, "&nbsp;"));
    if keep {
        let text = crate::leaf_nodes::copy_range(&cur, 0, cur.len());
        assert(cur@.subrange(0, cur@.len() as int) =~= cur@);
        let n = DomNode::new_text(text);
        proof {
            lemma_shapes_push(out@, n);
        }
        out.push(n);
    }
    assert(shapes_of(out@, out@.len() as int) =~= line_shapes(lines, cnt));
    out
}


proof fn lemma_parsed_child_decreases(items: Seq<ParsedNode>, i: int)
    requires
        0 <= i < items.len(),
        items[i] is Element,
    ensures
        decreases_to!(items => items[i]->Element_0.children@),
{
    lemma_element_decreases(items[i]);
    assert(decreases_to!(items => items[i]));
}

/// Append the nodes of `more` to `out`.
fn append_nodes(out: &mut Vec<DomNode>, more: Vec<DomNode>)
    ensures
        final(out)@ == old(out)@ + more@,
        shapes_of(final(out)@, final(out)@.len() as int) == shapes_of(old(out)@, old(out)@.len() as int) + shapes_of(more@, more@.len() as int),
{
    proof {
        lemma_shapes_append(out@, more@);
    }
    let mut m = more;
    out.append(&mut m);
}

/// A new container for an element whose tag becomes a container, holding
/// `children`.
fn tag_container(tag: &Vec<char>, kind: TagKind, href: Vec<char>, children: Vec<DomNode>) -> (n: DomNode)
    requires
        kind == tag_kind(tag@),
        kind != TagKind::LineBreak && kind != TagKind::Html && kind != TagKind::Other,
    ensures
        shape_of(n) == (match kind {
            TagKind::Format => container_shape(tag@, KindView::Formatting(format_of_tag(tag@).unwrap()), None, shapes_of(children@, children@.len() as int)),
            TagKind::Ordered => container_shape(list_tag(ListType::Ordered), KindView::List(ListType::Ordered), None, shapes_of(children@, children@.len() as int)),
            TagKind::Unordered => container_shape(list_tag(ListType::Unordered), KindView::List(ListType::Unordered), None, shapes_of(children@, children@.len() as int)),
            TagKind::ListItem => container_shape("li"@, KindView::ListItem, None, shapes_of(children@, children@.len() as int)),
            TagKind::Link => container_shape("a"@, KindView::Link(href@), Some(seq![("href"@, href@)]), shapes_of(children@, children@.len() as int)),
            TagKind::CodeBlock => container_shape("pre"@, KindView::CodeBlock, None, shapes_of(children@, children@.len() as int)),
            TagKind::Quote => container_shape("blockquote"@, KindView::Quote, None, shapes_of(children@, children@.len() as int)),
            _ => container_shape("p"@, KindView::Paragraph, None, shapes_of(children@, children@.len() as int)),
        }),
{
    proof {
        lemma_literals();
    }
    assert(tag@.subrange(0, tag@.len() as int) =~= tag@);
    let c = match kind {
        TagKind::Format => ContainerNode::new_formatting_from_tag(crate::leaf_nodes::copy_range(tag, 0, tag.len()), children).unwrap(),
        TagKind::Ordered => ContainerNode::new_list(ListType::Ordered, children),
        TagKind::Unordered => ContainerNode::new_list(ListType::Unordered, children),
        TagKind::ListItem => ContainerNode::new_list_item(children),
        TagKind::Link => ContainerNode::new_link(href, children),
        TagKind::CodeBlock => ContainerNode::new_code_block(children),
        TagKind::Quote => ContainerNode::new_quote(children),
        _ => ContainerNode::new_paragraph(children),
    };
    DomNode::Container(c)
}

/// What an element with tag name `tag` becomes.
fn classify(tag: &Vec<char>) -> (k: TagKind)
    ensures
        k == tag_kind(tag@),
{
    if is_format_tag_exec(tag) {
        TagKind::Format
    } else if tag_is(tag, "br") {
        TagKind::LineBreak
    } else if tag_is(tag, "ol") {
        TagKind::Ordered
    } else if tag_is(tag, "ul") {
        TagKind::Unordered
    } else if tag_is(tag, "li") {
        TagKind::ListItem
    } else if tag_is(tag, "a") {
        TagKind::Link
    } else if tag_is(tag, "pre") {
        TagKind::CodeBlock
    } else if tag_is(tag, "blockquote") {
        TagKind::Quote
    } else if tag_is(tag, "html") {
        TagKind::Html
    } else if tag_is(tag, "p") {
        TagKind::Paragraph
    } else {
        TagKind::Other
    }
}

/// True for the tags of inline formatting.
fn is_format_tag_exec(tag: &Vec<char>) -> (b: bool)
    ensures
        b == is_format_tag(tag@),
{
    tag_is(tag, "b") || tag_is(tag, "code") || tag_is(tag, "del") || tag_is(tag, "em") || tag_is(tag, "i")
        || tag_is(tag, "strong") || tag_is(tag, "u")
}

/// The nodes that the parsed nodes `items` become; `in_code` tells whether
/// they are inside a code block.
pub fn convert_nodes(items: &Vec<ParsedNode>, in_code: bool) -> (out: Vec<DomNode>)
    ensures
        shapes_of(out@, out@.len() as int) == conv_nodes(items@, items@.len() as int, in_code),
    decreases items@,
{
    let mut out: Vec<DomNode> = Vec::new();
    let mut i: usize = 0;
    while i < items.len()
        invariant
            i <= items@.len(),
            shapes_of(out@, out@.len() as int) == conv_nodes(items@, i as int, in_code),
        decreases items@.len() - i,
    {
        let ghost before = shapes_of(out@, out@.len() as int);
        match &items[i] {
            ParsedNode::Text(t) => {
                let more = convert_text(t, in_code);
                append_nodes(&mut out, more);
            },
            ParsedNode::Element(e) => {
                proof {
                    lemma_parsed_child_decreases(items@, i as int);
                    lemma_literals();
                }
                let tag = &e.name;
                let kind = classify(tag);
                match kind {
                    TagKind::LineBreak => {
                        let b = DomNode::new_line_break();
                        proof {
                            lemma_shapes_push(out@, b);
                        }
                        out.push(b);
                        assert(conv_node(items@[i as int], in_code) =~= seq![shape_of(b)]);
                    },
                    TagKind::Html => {
                        let more = convert_nodes(&e.children, in_code);
                        append_nodes(&mut out, more);
                    },
                    TagKind::Other => {
                        assert(conv_node(items@[i as int], in_code) =~= Seq::<Shape>::empty());
                        assert(before + Seq::<Shape>::empty() =~= before);
                    },
                    _ => {
                        if kind == TagKind::Format && tag_is(tag, "code") && in_code {
                            let more = convert_nodes(&e.children, in_code);
                            append_nodes(&mut out, more);
                        } else {
                            let children = convert_nodes(&e.children, if kind == TagKind::CodeBlock { true } else { in_code });
                            let href = attr_value_exec(&e.attrs, "href");
                            let n = tag_container(tag, kind, href, children);
                            proof {
                                lemma_shapes_push(out@, n);
                            }
                            out.push(n);
                            assert(conv_node(items@[i as int], in_code) =~= seq![shape_of(n)]);
                        }
                    },
                }
            },
        }
        assert(conv_nodes(items@, i + 1, in_code) == conv_nodes(items@, i as int, in_code) + conv_node(items@[i as int], in_code));
        assert(shapes_of(out@, out@.len() as int) =~= before + conv_node(items@[i as int], in_code));
        i += 1;
    }
    out
}

/// Turns parsed HTML into a document.
pub struct HtmlParser {}

impl HtmlParser {
    /// The document made of the parsed nodes `items`: a generic document
    /// node holding the nodes they become.
    pub fn parse_nodes(items: &Vec<ParsedNode>) -> (d: Dom)
        ensures
            d.wf(),
            shape_of(d.spec_document()) == container_shape(Seq::empty(), KindView::Generic, None, conv_nodes(items@, items@.len() as int, false)),
    {
        let nodes = convert_nodes(items, false);
        let ghost given = nodes@;
        let d = Dom::new(nodes);
        proof {
            let c = d.spec_document()->Container_0;
            lemma_same_children_iff(given, c.spec_children());
            assert forall|i: int| 0 <= i < c.spec_children().len() implies #[trigger] shape_of(given[i]) == shape_of(c.spec_children()[i]) by {
                lemma_same_content_shape(given[i], c.spec_children()[i]);
            }
            lemma_shapes_same(given, c.spec_children(), given.len() as int);
        }
        d
    }
}

proof fn lemma_shapes_same(s: Seq<DomNode>, t: Seq<DomNode>, k: int)
    requires
        s.len() == t.len(),
        0 <= k <= s.len(),
        forall|i: int| 0 <= i < s.len() ==> #[trigger] shape_of(s[i]) == shape_of(t[i]),
    ensures
        shapes_of(s, k) == shapes_of(t, k),
    decreases k,
{
    if k > 0 {
        lemma_shapes_same(s, t, k - 1);
        assert(shape_of(s[k - 1]) == shape_of(t[k - 1]));
    }
}

} // verus!

use vstd::prelude::*;

use crate::leaf_nodes::TextNode;
use crate::tree::{ContainerNode, DomNode, MentionNode, clone_pairs, lemma_container_child_decreases, lemma_decreases_children, lemma_pairs_view_push, pairs_view};

verus! {

/// The escaped form of one character of text: `&`, `<` and `>` become
/// entities.
pub open spec fn escape_char(c: char) -> Seq<char> {
    if c == '&' {
        seq!['&', 'a', 'm', 'p', ';']
    } else if c == '<' {
        seq!['&', 'l', 't', ';']
    } else if c == '>' {
        seq!['&', 'g', 't', ';']
    } else {
        seq![c]
    }
}

/// Text escaped for use as HTML text.
pub open spec fn escape_text(s: Seq<char>) -> Seq<char>
    decreases s.len(),
{
    if s.len() == 0 {
        Seq::empty()
    } else {
        escape_text(s.drop_last()) + escape_char(s.last())
    }
}

/// `html_escape::encode_text`: escapes `&`, `<` and `>` as `&amp;`, `&lt;`
/// and `&gt;` and keeps every other character, as the crate's source and
/// documentation state.
#[verifier::external_body]
fn encode_text(s: &Vec<char>) -> (r: Vec<char>)
    ensures
        r@ == escape_text(s@),
{
    let text: String = s.iter().collect();
    html_escape::encode_text(&text).chars().collect()
}

/// Text escaped for use as HTML text.
pub fn escape_text_exec(s: &Vec<char>) -> (r: Vec<char>)
    ensures
        r@ == escape_text(s@),
{
    encode_text(s)
}

/// The non-breaking space.
pub open spec fn nbsp() -> char {
    '\u{A0}'
}

/// Every pair of spaces, taken from the left, becomes two non-breaking
/// spaces.
pub open spec fn pair_spaces(s: Seq<char>) -> Seq<char>
    decreases s.len(),
{
    if s.len() < 2 {
        s
    } else if s[0] == ' ' && s[1] == ' ' {
        seq![nbsp(), nbsp()] + pair_spaces(s.skip(2))
    } else {
        seq![s[0]] + pair_spaces(s.skip(1))
    }
}

/// The HTML of a text node: its escaped text with pairs of spaces made
/// non-breaking and, for the last node of its parent, a trailing space made
/// non-breaking.
pub open spec fn text_html(data: Seq<char>, is_last: bool) -> Seq<char> {
    let e = pair_spaces(escape_text(data));
    if is_last && e.len() > 0 && e.last() == ' ' {
        e.drop_last().push(nbsp())
    } else {
        e
    }
}

/// The HTML of an attribute list: ` name="value"` for each.
pub open spec fn attrs_html(a: Seq<(Seq<char>, Seq<char>)>) -> Seq<char>
    decreases a.len(),
{
    if a.len() == 0 {
        Seq::empty()
    } else {
        attrs_html(a.drop_last()) + seq![' '] + a.last().0 + seq!['=', '"'] + a.last().1 + seq!['"']
    }
}

/// The opening tag of a container (nothing for a container with no name).
pub open spec fn open_tag(name: Seq<char>, attrs: Option<Seq<(Seq<char>, Seq<char>)>>) -> Seq<char> {
    if name.len() == 0 {
        Seq::empty()
    } else {
        seq!['<'] + name + (match attrs {
            Some(a) => attrs_html(a),
            None => Seq::empty(),
        }) + seq!['>']
    }
}

/// The closing tag of a container (nothing for a container with no name).
pub open spec fn close_tag(name: Seq<char>) -> Seq<char> {
    if name.len() == 0 {
        Seq::empty()
    } else {
        seq!['<', '/'] + name + seq!['>']
    }
}

/// The HTML of a line break.
pub open spec fn br_html() -> Seq<char> {
    seq!['<', 'b', 'r', ' ', '/', '>']
}

/// The HTML of a mention: a link that cannot be edited.
pub open spec fn mention_html(m: MentionNode) -> Seq<char> {
    seq!['<', 'a'] + attrs_html(m.spec_attributes() + seq![
        (seq!['h', 'r', 'e', 'f'], m.spec_href()),
        (seq!['c', 'o', 'n', 't', 'e', 'n', 't', 'e', 'd', 'i', 't', 'a', 'b', 'l', 'e'], seq!['f', 'a', 'l', 's', 'e']),
    ]) + seq!['>'] + m.spec_display_text() + seq!['<', '/', 'a', '>']
}

/// The HTML of a node; `is_last` tells whether it is the last child of its
/// parent.
pub open spec fn node_html(n: DomNode, is_last: bool) -> Seq<char>
    decreases n, 0int,
{
    match n {
        DomNode::Container(c) => {
            proof {
                lemma_decreases_children(n);
            }
            open_tag(c.spec_name(), c.spec_attrs()) + children_html(
                c.spec_children(),
                c.spec_children().len() as int,
            ) + close_tag(c.spec_name())
        },
        DomNode::Text(t) => text_html(t.spec_data(), is_last),
        DomNode::LineBreak(_) => br_html(),
        DomNode::Zwsp(z) => z.spec_data(),
        DomNode::Mention(m) => mention_html(m),
    }
}

/// The HTML of the first `k` nodes of `s`, the last node of `s` being
/// written as the last child.
pub open spec fn children_html(s: Seq<DomNode>, k: int) -> Seq<char>
    decreases s, k,
{
    if k <= 0 || k > s.len() {
        Seq::empty()
    } else {
        children_html(s, k - 1) + node_html(s[k - 1], k - 1 == s.len() - 1)
    }
}

/// Append `s` to `buf`.
pub fn push_chars(buf: &mut Vec<char>, s: &Vec<char>)
    ensures
        final(buf)@ == old(buf)@ + s@,
{
    let mut i: usize = 0;
    while i < s.len()
        invariant
            i <= s@.len(),
            buf@ == old(buf)@ + s@.subrange(0, i as int),
        decreases s@.len() - i,
    {
        buf.push(s[i]);
        i += 1;
        assert(buf@ =~= old(buf)@ + s@.subrange(0, i as int));
    }
    assert(s@.subrange(0, s@.len() as int) =~= s@);
}

/// Pairs of spaces, taken from the left, made non-breaking.
fn pair_spaces_exec(e: &Vec<char>) -> (r: Vec<char>)
    ensures
        r@ == pair_spaces(e@),
{
    let mut out: Vec<char> = Vec::new();
    let mut i: usize = 0;
    assert(e@.skip(0) =~= e@);
    while i < e.len()
        invariant
            i <= e@.len(),
            out@ + pair_spaces(e@.skip(i as int)) == pair_spaces(e@),
        decreases e@.len() - i,
    {
        let ghost rest = e@.skip(i as int);
        if i + 1 < e.len() && e[i] == ' ' && e[i + 1] == ' ' {
            assert(rest[0] == ' ' && rest[1] == ' ');
            assert(rest.skip(2) =~= e@.skip(i + 2));
            out.push('\u{A0}');
            out.push('\u{A0}');
            i += 2;
            assert(out@ + pair_spaces(e@.skip(i as int)) =~= pair_spaces(e@));
        } else {
            proof {
                if rest.len() >= 2 {
                    assert(rest.skip(1) =~= e@.skip(i + 1));
                } else {
                    assert(rest =~= seq![e@[i as int]]);
                    assert(e@.skip(i + 1) =~= Seq::<char>::empty());
                    assert(pair_spaces(e@.skip(i + 1)) =~= Seq::<char>::empty());
                }
            }
            out.push(e[i]);
            i += 1;
            assert(out@ + pair_spaces(e@.skip(i as int)) =~= pair_spaces(e@));
        }
    }
    assert(e@.skip(i as int) =~= Seq::<char>::empty());
    assert(out@ + pair_spaces(e@.skip(i as int)) =~= out@);
    out
}

/// Append the HTML of a text node's text to `buf`.
fn write_text_html(buf: &mut Vec<char>, data: &Vec<char>, is_last: bool)
    ensures
        final(buf)@ == old(buf)@ + text_html(data@, is_last),
{
    let escaped = encode_text(data);
    let mut e = pair_spaces_exec(&escaped);
    let n = e.len();
    if is_last && n > 0 && e[n - 1] == ' ' {
        e.set(n - 1, '\u{A0}');
        assert(e@ =~= pair_spaces(escape_text(data@)).drop_last().push(nbsp()));
    }
    push_chars(buf, &e);
}

/// Append the HTML of an attribute list to `buf`.
fn write_attrs(buf: &mut Vec<char>, attrs: &Vec<(Vec<char>, Vec<char>)>)
    ensures
        final(buf)@ == old(buf)@ + attrs_html(
            attrs@.map_values(|p: (Vec<char>, Vec<char>)| (p.0@, p.1@)),
        ),
{
    let ghost v = attrs@.map_values(|p: (Vec<char>, Vec<char>)| (p.0@, p.1@));
    let mut i: usize = 0;
    while i < attrs.len()
        invariant
            i <= attrs@.len(),
            v == attrs@.map_values(|p: (Vec<char>, Vec<char>)| (p.0@, p.1@)),
            buf@ == old(buf)@ + attrs_html(v.subrange(0, i as int)),
        decreases attrs@.len() - i,
    {
        let (name, value) = &attrs[i];
        buf.push(' ');
        push_chars(buf, name);
        buf.push('=');
        buf.push('"');
        push_chars(buf, value);
        buf.push('"');
        proof {
            assert(v.subrange(0, i + 1).drop_last() =~= v.subrange(0, i as int));
            assert(v.subrange(0, i + 1).last() == (name@, value@));
        }
        i += 1;
        assert(buf@ =~= old(buf)@ + attrs_html(v.subrange(0, i as int)));
    }
    assert(v.subrange(0, i as int) =~= v);
}

/// Append a character sequence given as a literal.
fn push_lit(buf: &mut Vec<char>, lit: Vec<char>)
    ensures
        final(buf)@ == old(buf)@ + lit@,
{
    push_chars(buf, &lit);
}

/// Append the HTML of a mention.
fn write_mention_html(buf: &mut Vec<char>, m: &MentionNode)
    ensures
        final(buf)@ == old(buf)@ + mention_html(*m),
{
    let mut attrs = clone_pairs(m.attributes());
    let href_name = vec!['h', 'r', 'e', 'f'];
    assert(href_name@ =~= seq!['h', 'r', 'e', 'f']);
    let href = m.href();
    proof {
        lemma_pairs_view_push(attrs@, (href_name, href));
    }
    attrs.push((href_name, href));
    let ce = vec!['c', 'o', 'n', 't', 'e', 'n', 't', 'e', 'd', 'i', 't', 'a', 'b', 'l', 'e'];
    assert(ce@ =~= seq!['c', 'o', 'n', 't', 'e', 'n', 't', 'e', 'd', 'i', 't', 'a', 'b', 'l', 'e']);
    let f = vec!['f', 'a', 'l', 's', 'e'];
    assert(f@ =~= seq!['f', 'a', 'l', 's', 'e']);
    proof {
        lemma_pairs_view_push(attrs@, (ce, f));
    }
    attrs.push((ce, f));
    assert(pairs_view(attrs@) =~= m.spec_attributes()
        + seq![
        (seq!['h', 'r', 'e', 'f'], m.spec_href()),
        (seq!['c', 'o', 'n', 't', 'e', 'n', 't', 'e', 'd', 'i', 't', 'a', 'b', 'l', 'e'], seq!['f', 'a', 'l', 's', 'e']),
    ]);
    let open_a = vec!['<', 'a'];
    assert(open_a@ =~= seq!['<', 'a']);
    push_lit(buf, open_a);
    write_attrs(buf, &attrs);
    buf.push('>');
    let t = m.display_text();
    push_chars(buf, &t);
    let close_a = vec!['<', '/', 'a', '>'];
    assert(close_a@ =~= seq!['<', '/', 'a', '>']);
    push_lit(buf, close_a);
    assert(buf@ =~= old(buf)@ + mention_html(*m));
}

impl DomNode {
    /// Append the HTML of this node to `buf`; `is_last` tells whether it is
    /// the last child of its parent.
    pub fn write_html(&self, buf: &mut Vec<char>, is_last: bool)
        ensures
            final(buf)@ == old(buf)@ + node_html(*self, is_last),
        decreases *self,
    {
        match self {
            DomNode::Container(c) => {
                c.write_html(buf);
            },
            DomNode::Text(t) => {
                write_text_html(buf, t.data(), is_last);
            },
            DomNode::LineBreak(_) => {
                let br = vec!['<', 'b', 'r', ' ', '/', '>'];
                assert(br@ =~= br_html());
                push_lit(buf, br);
            },
            DomNode::Zwsp(z) => {
                push_chars(buf, z.data());
            },
            DomNode::Mention(m) => {
                write_mention_html(buf, m);
            },
        }
    }
}

impl ContainerNode {
    /// Append the HTML of this container to `buf`.
    pub fn write_html(&self, buf: &mut Vec<char>)
        ensures
            final(buf)@ == old(buf)@ + node_html(DomNode::Container(*self), false),
        decreases *self,
    {
        let name = self.name();
        if name.len() != 0 {
            buf.push('<');
            push_chars(buf, name);
            match self.attributes() {
                Some(a) => write_attrs(buf, a),
                None => {},
            }
            buf.push('>');
        }
        let ghost start = buf@;
        let children = self.children();
        let n = children.len();
        let mut i: usize = 0;
        while i < n
            invariant
                i <= n,
                n == children@.len(),
                children@ == self.spec_children(),
                buf@ == start + children_html(children@, i as int),
            decreases n - i,
        {
            proof {
                lemma_container_child_decreases(*self, i as int);
            }
            children[i].write_html(buf, i + 1 == n);
            i += 1;
        }
        if name.len() != 0 {
            buf.push('<');
            buf.push('/');
            push_chars(buf, name);
            buf.push('>');
        }
        assert(buf@ =~= old(buf)@ + node_html(DomNode::Container(*self), false));
    }
}

/// Conversion of a node or a document to HTML.
pub trait ToHtml {
    /// The HTML of this item; `is_last` tells whether it is the last child of
    /// its parent.
    spec fn spec_html(&self, is_last: bool) -> Seq<char>;

    /// Append the HTML of this item to `buf`.
    fn fmt_html(&self, buf: &mut Vec<char>, is_last_node_in_parent: bool)
        ensures
            final(buf)@ == old(buf)@ + self.spec_html(is_last_node_in_parent),
    ;

    /// The HTML of this item on its own.
    fn to_html(&self) -> (r: Vec<char>)
        ensures
            r@ == self.spec_html(false),
    {
        let mut buf: Vec<char> = Vec::new();
        self.fmt_html(&mut buf, false);
        assert(buf@ =~= self.spec_html(false));
        buf
    }
}

/// Writing of opening and closing tags.
pub trait ToHtmlExt: ToHtml {
    /// Append `</name>` to `formatter`.
    fn fmt_tag_close(&self, name: &Vec<char>, formatter: &mut Vec<char>)
        ensures
            final(formatter)@ == old(formatter)@ + seq!['<', '/'] + name@ + seq!['>'],
    {
        formatter.push('<');
        formatter.push('/');
        push_chars(formatter, name);
        formatter.push('>');
        assert(formatter@ =~= old(formatter)@ + seq!['<', '/'] + name@ + seq!['>']);
    }

    /// Append `<name attr="value"...>` to `formatter`.
    fn fmt_tag_open(
        &self,
        name: &Vec<char>,
        formatter: &mut Vec<char>,
        attrs: &Option<Vec<(Vec<char>, Vec<char>)>>,
    )
        ensures
            final(formatter)@ == old(formatter)@ + seq!['<'] + name@ + (match attrs {
                Some(a) => attrs_html(pairs_view(a@)),
                None => Seq::<char>::empty(),
            }) + seq!['>'],
    {
        formatter.push('<');
        push_chars(formatter, name);
        match attrs {
            Some(a) => write_attrs(formatter, a),
            None => {},
        }
        formatter.push('>');
        assert(formatter@ =~= old(formatter)@ + seq!['<'] + name@ + (match attrs {
            Some(a) => attrs_html(pairs_view(a@)),
            None => Seq::<char>::empty(),
        }) + seq!['>']);
    }
}

impl ToHtml for DomNode {
    open spec fn spec_html(&self, is_last: bool) -> Seq<char> {
        node_html(*self, is_last)
    }

    fn fmt_html(&self, buf: &mut Vec<char>, is_last_node_in_parent: bool) {
        self.write_html(buf, is_last_node_in_parent);
    }
}

impl ToHtmlExt for DomNode {
}

impl ToHtml for ContainerNode {
    open spec fn spec_html(&self, is_last: bool) -> Seq<char> {
        node_html(DomNode::Container(*self), is_last)
    }

    fn fmt_html(&self, buf: &mut Vec<char>, is_last_node_in_parent: bool) {
        self.write_html(buf);
    }
}

impl ToHtml for TextNode {
    open spec fn spec_html(&self, is_last: bool) -> Seq<char> {
        text_html(self.spec_data(), is_last)
    }

    fn fmt_html(&self, buf: &mut Vec<char>, is_last_node_in_parent: bool) {
        write_text_html(buf, self.data(), is_last_node_in_parent);
    }
}

impl ToHtml for crate::leaf_nodes::LineBreakNode {
    open spec fn spec_html(&self, is_last: bool) -> Seq<char> {
        br_html()
    }

    fn fmt_html(&self, buf: &mut Vec<char>, is_last_node_in_parent: bool) {
        let br = vec!['<', 'b', 'r', ' ', '/', '>'];
        assert(br@ =~= br_html());
        push_lit(buf, br);
    }
}

impl ToHtml for crate::leaf_nodes::ZwspNode {
    open spec fn spec_html(&self, is_last: bool) -> Seq<char> {
        self.spec_data()
    }

    fn fmt_html(&self, buf: &mut Vec<char>, is_last_node_in_parent: bool) {
        push_chars(buf, self.data());
    }
}

impl ToHtml for MentionNode {
    open spec fn spec_html(&self, is_last: bool) -> Seq<char> {
        mention_html(*self)
    }

    fn fmt_html(&self, buf: &mut Vec<char>, is_last_node_in_parent: bool) {
        write_mention_html(buf, self);
    }
}

impl ToHtml for crate::dom::Dom {
    open spec fn spec_html(&self, is_last: bool) -> Seq<char> {
        node_html(self.spec_document(), is_last)
    }

    fn fmt_html(&self, buf: &mut Vec<char>, is_last_node_in_parent: bool) {
        self.document_node().write_html(buf, is_last_node_in_parent);
    }
}

} // verus!

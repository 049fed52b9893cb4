use vstd::prelude::*;

use crate::kinds::InlineFormatType;
use crate::leaf_nodes::{TextNode, LineBreakNode, ZwspNode, is_blank_char};
use crate::tree::{ContainerNode, ContainerNodeKind, DomNode, KindView, MentionNode, is_block_kind, kind_of, lemma_decreases_children, lemma_container_decreases_children};

verus! {

/// Options for writing markdown, as a set of flags.
#[derive(Debug, Copy, Clone, PartialEq, Eq, Structural)]
pub struct MarkdownOptions {
    bits: u8,
}

/// Line breaks are written as nothing.
pub const IGNORE_LINE_BREAK_BITS: u8 = 1u8;

impl MarkdownOptions {
    /// The flags of these options.
    pub closed spec fn spec_bits(&self) -> u8 {
        self.bits
    }

    /// The option that writes line breaks as nothing.
    pub fn ignore_line_break() -> (o: Self)
        ensures
            o.spec_bits() == IGNORE_LINE_BREAK_BITS,
    {
        MarkdownOptions { bits: IGNORE_LINE_BREAK_BITS }
    }

    /// No option.
    pub fn empty() -> (o: Self)
        ensures
            o.spec_bits() == 0,
    {
        MarkdownOptions { bits: 0 }
    }

    /// True when every flag of `other` is set in `self`.
    pub fn contains(&self, other: Self) -> (b: bool)
        ensures
            b == (self.spec_bits() & other.spec_bits() == other.spec_bits()),
    {
        (self.bits & other.bits) == other.bits
    }

    /// Set the flags of `other` in `self`.
    pub fn insert(&mut self, other: Self)
        ensures
            final(self).spec_bits() == old(self).spec_bits() | other.spec_bits(),
    {
        self.bits = self.bits | other.bits;
    }
}

/// Why a node could not be written as markdown.
#[derive(Debug, Clone)]
pub enum MarkdownError {
    /// A list held a child that is not a list item; its name, if it has one.
    InvalidListItem(Option<Vec<char>>),
}


/// The error of a markdown error, taken by value.
pub open spec fn md_error(e: MarkdownError) -> Option<Seq<char>> {
    match e {
        MarkdownError::InvalidListItem(Some(n)) => Some(n@),
        MarkdownError::InvalidListItem(None) => None,
    }
}

/// The options ask for line breaks to be written as a space.
pub open spec fn ignores_line_break(o: MarkdownOptions) -> bool {
    o.spec_bits() & IGNORE_LINE_BREAK_BITS == IGNORE_LINE_BREAK_BITS
}

/// The markdown of something, or the name of the invalid list item found
/// (`None` for an item without one).
pub type MdResult = Result<Seq<char>, Option<Seq<char>>>;

/// `r` with `pre` before and `post` after its text.
pub open spec fn md_wrap(r: MdResult, pre: Seq<char>, post: Seq<char>) -> MdResult {
    match r {
        Ok(x) => Ok(pre + x + post),
        Err(e) => Err(e),
    }
}

/// A character of a link address, escaped for markdown.
pub open spec fn url_char(c: char) -> Seq<char> {
    if c == '<' || c == '>' || c == '(' || c == ')' {
        seq!['\\', c]
    } else {
        seq![c]
    }
}

/// A link address with `<`, `>`, `(` and `)` escaped by a backslash.
pub open spec fn escape_url(s: Seq<char>) -> Seq<char>
    decreases s.len(),
{
    if s.len() == 0 {
        Seq::empty()
    } else {
        escape_url(s.drop_last()) + url_char(s.last())
    }
}

/// `k` spaces.
pub open spec fn spaces(k: nat) -> Seq<char> {
    Seq::new(k, |i: int| ' ')
}

/// A character of a list item's markdown, its line breaks followed by `k`
/// spaces.
pub open spec fn indent_char(c: char, k: nat) -> Seq<char> {
    if c == '\n' {
        seq!['\n'] + spaces(k)
    } else {
        seq![c]
    }
}

/// Text with each line break followed by `k` spaces.
pub open spec fn indent_lines(s: Seq<char>, k: nat) -> Seq<char>
    decreases s.len(),
{
    if s.len() == 0 {
        Seq::empty()
    } else {
        indent_lines(s.drop_last(), k) + indent_char(s.last(), k)
    }
}

/// The decimal digit `d`.
pub open spec fn digit_char(d: nat) -> char {
    seq!['0', '1', '2', '3', '4', '5', '6', '7', '8', '9'][d as int]
}

/// The decimal writing of `n`.
pub open spec fn decimal(n: nat) -> Seq<char>
    decreases n,
{
    if n < 10 {
        seq![digit_char(n)]
    } else {
        decimal(n / 10).push(digit_char(n % 10))
    }
}

/// The tag name of list items.
pub open spec fn li_name() -> Seq<char> {
    seq!['l', 'i']
}

/// The tag name of ordered lists.
pub open spec fn ol_name() -> Seq<char> {
    seq!['o', 'l']
}

/// The markdown of a node; `ig` tells whether line breaks are written as a
/// space.
pub open spec fn md_node(n: DomNode, ig: bool) -> MdResult
    decreases n, 0int,
{
    match n {
        DomNode::Container(c) => {
            proof {
                lemma_decreases_children(n);
            }
            let ch = c.spec_children();
            let k = ch.len() as int;
            match c.spec_kind() {
                KindView::Formatting(InlineFormatType::Italic) => md_wrap(md_children(ch, k, ig), seq!['*'], seq!['*']),
                KindView::Formatting(InlineFormatType::Bold) => md_wrap(md_children(ch, k, ig), seq!['_', '_'], seq!['_', '_']),
                KindView::Formatting(InlineFormatType::StrikeThrough) => md_wrap(md_children(ch, k, ig), seq!['~', '~'], seq!['~', '~']),
                KindView::Formatting(InlineFormatType::Underline) => md_wrap(md_children(ch, k, ig), seq!['<', 'u', '>'], seq!['<', '/', 'u', '>']),
                KindView::Formatting(InlineFormatType::InlineCode) => md_wrap(md_children(ch, k, true), seq!['`', '`', ' '], seq![' ', '`', '`']),
                KindView::Link(url) => md_wrap(md_children(ch, k, ig), seq!['['], seq![']', '(', '<'] + escape_url(url) + seq!['>', ')']),
                KindView::List(_) => match md_list(ch, k, c.spec_name() == ol_name(), ig) {
                    Ok((x, _)) => Ok(x),
                    Err(e) => Err(e),
                },
                KindView::CodeBlock => md_wrap(md_children(ch, k, ig), seq!['`', '`', '`', '\n'], seq!['\n', '`', '`', '`', '\n']),
                KindView::Quote => md_wrap(md_children(ch, k, ig), seq!['>', ' '], seq!['\n']),
                _ => md_children(ch, k, ig),
            }
        },
        DomNode::Text(t) => Ok(t.spec_data()),
        DomNode::LineBreak(_) => Ok(if ig { seq![' '] } else { seq!['\\', '\n'] }),
        DomNode::Zwsp(z) => Ok(z.spec_data()),
        DomNode::Mention(m) => Ok(m.spec_markdown_text()),
    }
}

/// The markdown of the first `k` nodes of `s`, a line break before each
/// block node but the first.
pub open spec fn md_children(s: Seq<DomNode>, k: int, ig: bool) -> MdResult
    decreases s, k,
{
    if k <= 0 || k > s.len() {
        Ok(Seq::empty())
    } else {
        match md_children(s, k - 1, ig) {
            Err(e) => Err(e),
            Ok(p) => match md_node(s[k - 1], ig) {
                Err(e) => Err(e),
                Ok(x) => Ok(p + (if k - 1 > 0 && is_block_kind(kind_of(s[k - 1])) {
                    seq!['\n']
                } else {
                    Seq::empty()
                }) + x),
            },
        }
    }
}

/// What a child of a list adds to the list's markdown, with the number of
/// items numbered after it, `cnt` having been numbered before: an item
/// starts with its number and a dot in an ordered list, with `*` else, then
/// a space, and its later lines are indented by the width of the number (of
/// the `*`) plus one, a line break following all but the last child; blank
/// text adds nothing; any other child is an invalid item.
pub open spec fn md_list_piece(child: DomNode, cnt: nat, ordered: bool, ig: bool, is_last: bool) -> Result<(Seq<char>, nat), Option<Seq<char>>>
    decreases child, 1int,
{
    match child {
        DomNode::Container(c) => if c.spec_kind() is ListItem && c.spec_name() == li_name() {
            let cnt2: nat = if ordered { cnt + 1 } else { cnt };
            let marker = if ordered { decimal(cnt2) + seq!['.'] } else { seq!['*'] };
            let width: nat = if ordered { decimal(cnt2).len() } else { 1 };
            match md_node(child, ig) {
                Err(e) => Err(e),
                Ok(x) => Ok((marker + seq![' '] + indent_lines(x, width + 1) + (if is_last {
                    Seq::empty()
                } else {
                    seq!['\n']
                }), cnt2)),
            }
        } else {
            Err(Some(c.spec_name()))
        },
        DomNode::Text(t) => if forall|i: int| 0 <= i < t.spec_data().len() ==> is_blank_char(#[trigger] t.spec_data()[i]) {
            Ok((Seq::empty(), cnt))
        } else {
            Err(None)
        },
        DomNode::LineBreak(_) => Err(Some(seq!['b', 'r'])),
        _ => Err(None),
    }
}

/// The markdown of the first `k` children of a list, with the number of
/// items numbered so far.
pub open spec fn md_list(s: Seq<DomNode>, k: int, ordered: bool, ig: bool) -> Result<(Seq<char>, nat), Option<Seq<char>>>
    decreases s, k,
{
    if k <= 0 || k > s.len() {
        Ok((Seq::empty(), 0))
    } else {
        match md_list(s, k - 1, ordered, ig) {
            Err(e) => Err(e),
            Ok((p, cnt)) => match md_list_piece(s[k - 1], cnt, ordered, ig, k - 1 == s.len() - 1) {
                Err(e) => Err(e),
                Ok((x, cnt2)) => Ok((p + x, cnt2)),
            },
        }
    }
}

/// What writing the markdown of a node leaves written when it fails: what
/// came before the first invalid list item.
pub open spec fn md_node_partial(n: DomNode, ig: bool) -> Seq<char>
    decreases n, 0int,
{
    match n {
        DomNode::Container(c) => {
            proof {
                lemma_decreases_children(n);
            }
            let ch = c.spec_children();
            let k = ch.len() as int;
            match c.spec_kind() {
                KindView::Formatting(InlineFormatType::Italic) => seq!['*'] + md_children_partial(ch, k, ig),
                KindView::Formatting(InlineFormatType::Bold) => seq!['_', '_'] + md_children_partial(ch, k, ig),
                KindView::Formatting(InlineFormatType::StrikeThrough) => seq!['~', '~'] + md_children_partial(ch, k, ig),
                KindView::Formatting(InlineFormatType::Underline) => seq!['<', 'u', '>'] + md_children_partial(ch, k, ig),
                KindView::Formatting(InlineFormatType::InlineCode) => seq!['`', '`', ' '] + md_children_partial(ch, k, true),
                KindView::Link(_) => seq!['['] + md_children_partial(ch, k, ig),
                KindView::List(_) => md_list_partial(ch, k, c.spec_name() == ol_name(), ig),
                KindView::CodeBlock => seq!['`', '`', '`', '\n'] + md_children_partial(ch, k, ig),
                KindView::Quote => seq!['>', ' '] + md_children_partial(ch, k, ig),
                _ => md_children_partial(ch, k, ig),
            }
        },
        _ => Seq::empty(),
    }
}

/// What writing the markdown of the first `k` nodes of `s` leaves written
/// when it fails.
pub open spec fn md_children_partial(s: Seq<DomNode>, k: int, ig: bool) -> Seq<char>
    decreases s, k,
{
    if k <= 0 || k > s.len() {
        Seq::empty()
    } else {
        match md_children(s, k - 1, ig) {
            Err(_) => md_children_partial(s, k - 1, ig),
            Ok(p) => p + (if k - 1 > 0 && is_block_kind(kind_of(s[k - 1])) {
                seq!['\n']
            } else {
                Seq::empty()
            }) + md_node_partial(s[k - 1], ig),
        }
    }
}

/// What writing a child of a list leaves written when it fails: the number
/// (or `*`) and the space of a list item whose content fails, nothing for
/// an invalid item.
pub open spec fn md_list_piece_partial(child: DomNode, cnt: nat, ordered: bool) -> Seq<char> {
    match child {
        DomNode::Container(c) => if c.spec_kind() is ListItem && c.spec_name() == li_name() {
            (if ordered { decimal(cnt + 1) + seq!['.'] } else { seq!['*'] }) + seq![' ']
        } else {
            Seq::empty()
        },
        _ => Seq::empty(),
    }
}

/// What writing the markdown of the first `k` children of a list leaves
/// written when it fails.
pub open spec fn md_list_partial(s: Seq<DomNode>, k: int, ordered: bool, ig: bool) -> Seq<char>
    decreases s, k,
{
    if k <= 0 || k > s.len() {
        Seq::empty()
    } else {
        match md_list(s, k - 1, ordered, ig) {
            Err(_) => md_list_partial(s, k - 1, ordered, ig),
            Ok((p, cnt)) => p + md_list_piece_partial(s[k - 1], cnt, ordered),
        }
    }
}

proof fn lemma_md_children_err(s: Seq<DomNode>, j: int, k: int, ig: bool)
    requires
        0 < j <= k <= s.len(),
        md_children(s, j, ig) is Err,
    ensures
        md_children(s, k, ig) == md_children(s, j, ig),
        md_children_partial(s, k, ig) == md_children_partial(s, j, ig),
    decreases k - j,
{
    if k > j {
        lemma_md_children_err(s, j, k - 1, ig);
    }
}

proof fn lemma_md_list_err(s: Seq<DomNode>, j: int, k: int, ordered: bool, ig: bool)
    requires
        0 < j <= k <= s.len(),
        md_list(s, j, ordered, ig) is Err,
    ensures
        md_list(s, k, ordered, ig) == md_list(s, j, ordered, ig),
        md_list_partial(s, k, ordered, ig) == md_list_partial(s, j, ordered, ig),
    decreases k - j,
{
    if k > j {
        lemma_md_list_err(s, j, k - 1, ordered, ig);
    }
}

/// Append `s` to `buf`.
fn push_all(buf: &mut Vec<char>, s: &Vec<char>)
    ensures
        final(buf)@ == old(buf)@ + s@,
{
    crate::html::push_chars(buf, s);
}

/// A link address with `<`, `>`, `(` and `)` escaped by a backslash.
fn escape_url_exec(s: &Vec<char>) -> (r: Vec<char>)
    ensures
        r@ == escape_url(s@),
{
    let mut out: Vec<char> = Vec::new();
    let mut i: usize = 0;
    while i < s.len()
        invariant
            i <= s@.len(),
            out@ == escape_url(s@.take(i as int)),
        decreases s@.len() - i,
    {
        assert(s@.take(i + 1).drop_last() =~= s@.take(i as int));
        let c = s[i];
        if c == '<' || c == '>' || c == '(' || c == ')' {
            out.push('\\');
        }
        out.push(c);
        i += 1;
        assert(out@ =~= escape_url(s@.take(i as int)));
    }
    assert(s@.take(i as int) =~= s@);
    out
}

/// Text with each line break followed by `k` spaces.
fn indent_lines_exec(s: &Vec<char>, k: usize) -> (r: Vec<char>)
    ensures
        r@ == indent_lines(s@, k as nat),
{
    let mut out: Vec<char> = Vec::new();
    let mut i: usize = 0;
    while i < s.len()
        invariant
            i <= s@.len(),
            out@ == indent_lines(s@.take(i as int), k as nat),
        decreases s@.len() - i,
    {
        assert(s@.take(i + 1).drop_last() =~= s@.take(i as int));
        let c = s[i];
        let ghost before = out@;
        out.push(c);
        if c == '\n' {
            let mut j: usize = 0;
            while j < k
                invariant
                    j <= k,
                    out@ == before + seq!['\n'] + spaces(j as nat),
                decreases k - j,
            {
                out.push(' ');
                j += 1;
                assert(out@ =~= before + seq!['\n'] + spaces(j as nat));
            }
        }
        i += 1;
        assert(out@ =~= indent_lines(s@.take(i as int), k as nat));
    }
    assert(s@.take(i as int) =~= s@);
    out
}

proof fn lemma_decimal_len(n: nat)
    ensures
        decimal(n).len() >= 1,
        decimal(n).len() <= n + 1,
    decreases n,
{
    if n >= 10 {
        lemma_decimal_len(n / 10);
    }
}

/// The decimal writing of `n`.
fn decimal_exec(n: usize) -> (r: Vec<char>)
    ensures
        r@ == decimal(n as nat),
    decreases n,
{
    let digits = vec!['0', '1', '2', '3', '4', '5', '6', '7', '8', '9'];
    assert(digits@ =~= seq!['0', '1', '2', '3', '4', '5', '6', '7', '8', '9']);
    if n < 10 {
        let v = vec![digits[n]];
        assert(v@ =~= decimal(n as nat));
        v
    } else {
        let mut v = decimal_exec(n / 10);
        v.push(digits[n % 10]);
        v
    }
}

/// Append the markdown of the nodes of `children` to `buf`, a line break
/// before each block node but the first.
fn write_children_md(children: &Vec<DomNode>, buf: &mut Vec<char>, ig: bool) -> (r: Result<(), MarkdownError>)
    ensures
        match r {
            Ok(_) => md_children(children@, children@.len() as int, ig) matches Ok(x) && final(buf)@ == old(buf)@ + x,
            Err(e) => md_children(children@, children@.len() as int, ig) == Err::<Seq<char>, Option<Seq<char>>>(md_error(e))
                && final(buf)@ == old(buf)@ + md_children_partial(children@, children@.len() as int, ig),
        },
    decreases children@, 1int,
{
    let ghost start = buf@;
    let mut i: usize = 0;
    while i < children.len()
        invariant
            i <= children@.len(),
            start == old(buf)@,
            md_children(children@, i as int, ig) matches Ok(x) && buf@ == start + x,
        decreases children@.len() - i,
    {
        let ghost before = buf@;
        if i > 0 && children[i].is_block_node() {
            buf.push('\n');
        }
        let ghost mid = buf@;
        let r = write_node_md(&children[i], buf, ig);
        match r {
            Err(e) => {
                proof {
                    lemma_md_children_err(children@, i + 1, children@.len() as int, ig);
                    let prev = md_children(children@, i as int, ig)->Ok_0;
                    assert(buf@ =~= start + (prev + (if i > 0 && is_block_kind(kind_of(children@[i as int])) {
                        seq!['\n']
                    } else {
                        Seq::empty()
                    }) + md_node_partial(children@[i as int], ig)));
                    assert(md_children_partial(children@, i + 1, ig) == prev + (if i > 0 && is_block_kind(kind_of(children@[i as int])) {
                        seq!['\n']
                    } else {
                        Seq::empty()
                    }) + md_node_partial(children@[i as int], ig));
                }
                return Err(e);
            },
            Ok(_) => {},
        }
        i += 1;
        proof {
            let prev = md_children(children@, i - 1, ig)->Ok_0;
            let x = md_node(children@[i - 1], ig)->Ok_0;
            assert(buf@ =~= start + (prev + (if i - 1 > 0 && is_block_kind(kind_of(children@[i - 1])) {
                seq!['\n']
            } else {
                Seq::empty()
            }) + x));
        }
    }
    Ok(())
}

proof fn lemma_decimal_short(n: nat)
    requires
        n >= 1,
    ensures
        decimal(n).len() <= n / 2 + 1,
    decreases n,
{
    if n >= 10 {
        lemma_decimal_short(n / 10);
    }
}

/// Append what a child of a list adds to the list's markdown to `buf`;
/// returns the number of items numbered after it.
fn list_piece_md(child: &DomNode, counter: usize, ordered: bool, ig: bool, is_last: bool, buf: &mut Vec<char>) -> (r: Result<usize, MarkdownError>)
    requires
        counter < usize::MAX,
    ensures
        match r {
            Ok(c) => md_list_piece(*child, counter as nat, ordered, ig, is_last) matches Ok((x, c2)) && final(buf)@
                == old(buf)@ + x && c2 == c as nat,
            Err(e) => md_list_piece(*child, counter as nat, ordered, ig, is_last) == Err::<(Seq<char>, nat), Option<Seq<char>>>(md_error(e))
                && final(buf)@ == old(buf)@ + md_list_piece_partial(*child, counter as nat, ordered),
        },
    decreases *child, 1int,
{
    match child {
        DomNode::Container(c) => {
            let is_item = match c.kind() {
                ContainerNodeKind::ListItem => true,
                _ => false,
            };
            let li = vec!['l', 'i'];
            assert(li@ =~= li_name());
            if !(is_item && crate::kinds::chars_eq(c.name(), &li)) {
                let name = crate::leaf_nodes::copy_range(c.name(), 0, c.name().len());
                assert(c.spec_name().subrange(0, c.spec_name().len() as int) =~= c.spec_name());
                return Err(MarkdownError::InvalidListItem(Some(name)));
            }
            let ghost start = buf@;
            let mut marker: Vec<char>;
            let mut count = counter;
            let width: usize;
            if ordered {
                count = counter + 1;
                marker = decimal_exec(count);
                proof {
                    lemma_decimal_short(count as nat);
                }
                width = marker.len();
                marker.push('.');
                assert(marker@ =~= decimal(count as nat) + seq!['.']);
            } else {
                marker = vec!['*'];
                width = 1;
                assert(marker@ =~= seq!['*']);
            }
            assert(marker@ == (if ordered { decimal(count as nat) + seq!['.'] } else { seq!['*'] }));
            assert(count as nat == (if ordered { counter as nat + 1 } else { counter as nat }));
            let indentation = width + 1;
            push_all(buf, &marker);
            buf.push(' ');
            let mut child_buf: Vec<char> = Vec::new();
            let r = write_node_md(child, &mut child_buf, ig);
            match r {
                Err(e) => {
                    assert(buf@ =~= start + md_list_piece_partial(*child, counter as nat, ordered));
                    return Err(e);
                },
                Ok(_) => {},
            }
            assert(child_buf@ =~= md_node(*child, ig)->Ok_0);
            let indented = indent_lines_exec(&child_buf, indentation);
            push_all(buf, &indented);
            if !is_last {
                buf.push('\n');
            }
            assert(buf@ =~= start + (marker@ + seq![' '] + indent_lines(md_node(*child, ig)->Ok_0, width as nat + 1) + (if is_last {
                Seq::empty()
            } else {
                seq!['\n']
            })));
            Ok(count)
        },
        DomNode::Text(t) => {
            if !t.is_blank() {
                return Err(MarkdownError::InvalidListItem(None));
            }
            assert(buf@ =~= old(buf)@ + Seq::<char>::empty());
            Ok(counter)
        },
        DomNode::LineBreak(lb) => {
            Err(MarkdownError::InvalidListItem(Some(lb.name())))
        },
        _ => Err(MarkdownError::InvalidListItem(None)),
    }
}

/// Append the markdown of the items of a list to `buf`.
fn write_list_md(children: &Vec<DomNode>, ordered: bool, buf: &mut Vec<char>, ig: bool) -> (r: Result<(), MarkdownError>)
    ensures
        match r {
            Ok(_) => md_list(children@, children@.len() as int, ordered, ig) matches Ok((x, _)) && final(buf)@ == old(buf)@ + x,
            Err(e) => md_list(children@, children@.len() as int, ordered, ig) == Err::<(Seq<char>, nat), Option<Seq<char>>>(md_error(e))
                && final(buf)@ == old(buf)@ + md_list_partial(children@, children@.len() as int, ordered, ig),
        },
    decreases children@, 1int,
{
    let ghost start = buf@;
    let n = children.len();
    let mut counter: usize = 0;
    let mut i: usize = 0;
    while i < n
        invariant
            n == children@.len(),
            i <= n,
            start == old(buf)@,
            md_list(children@, i as int, ordered, ig) matches Ok((x, c)) && buf@ == start + x && c == counter,
            counter <= i,
        decreases n - i,
    {
        let ghost prev = md_list(children@, i as int, ordered, ig)->Ok_0.0;
        let ghost before = buf@;
        let r = list_piece_md(&children[i], counter, ordered, ig, i == n - 1, buf);
        match r {
            Err(e) => {
                proof {
                    lemma_md_list_err(children@, i + 1, n as int, ordered, ig);
                    assert(buf@ =~= start + (prev + md_list_piece_partial(children@[i as int], counter as nat, ordered)));
                    assert(md_list_partial(children@, i + 1, ordered, ig) == prev + md_list_piece_partial(children@[i as int], counter as nat, ordered));
                }
                return Err(e);
            },
            Ok(c2) => {
                counter = c2;
            },
        }
        proof {
            assert(buf@ =~= start + (prev + md_list_piece(children@[i as int], md_list(children@, i as int, ordered, ig)->Ok_0.1, ordered, ig, i == n - 1)->Ok_0.0));
        }
        i += 1;
    }
    Ok(())
}

/// Append the markdown of a node to `buf`.
fn write_node_md(node: &DomNode, buf: &mut Vec<char>, ig: bool) -> (r: Result<(), MarkdownError>)
    ensures
        match r {
            Ok(_) => md_node(*node, ig) matches Ok(x) && final(buf)@ == old(buf)@ + x,
            Err(e) => md_node(*node, ig) == Err::<Seq<char>, Option<Seq<char>>>(md_error(e)) && final(buf)@
                == old(buf)@ + md_node_partial(*node, ig),
        },
    decreases *node, 0int,
{
    match node {
        DomNode::Container(c) => {
            proof {
                lemma_container_decreases_children(*c);
            }
            write_container_md(c, buf, ig)
        },
        DomNode::Text(t) => {
            push_all(buf, t.data());
            Ok(())
        },
        DomNode::LineBreak(_) => {
            if ig {
                buf.push(' ');
            } else {
                buf.push('\\');
                buf.push('\n');
                assert(buf@ =~= old(buf)@ + seq!['\\', '\n']);
            }
            Ok(())
        },
        DomNode::Zwsp(z) => {
            push_all(buf, z.data());
            Ok(())
        },
        DomNode::Mention(m) => {
            let t = m.markdown_text();
            push_all(buf, &t);
            Ok(())
        },
    }
}

/// Append a literal to `buf`.
fn push_lit(buf: &mut Vec<char>, lit: Vec<char>)
    ensures
        final(buf)@ == old(buf)@ + lit@,
{
    push_all(buf, &lit);
}

/// Append the markdown of a container to `buf`.
#[verifier::rlimit(40)]
fn write_container_md(c: &ContainerNode, buf: &mut Vec<char>, ig: bool) -> (r: Result<(), MarkdownError>)
    requires
        decreases_to!(c => c.spec_children()),
    ensures
        match r {
            Ok(_) => md_node(DomNode::Container(*c), ig) matches Ok(x) && final(buf)@ == old(buf)@ + x,
            Err(e) => md_node(DomNode::Container(*c), ig) == Err::<Seq<char>, Option<Seq<char>>>(md_error(e))
                && final(buf)@ == old(buf)@ + md_node_partial(DomNode::Container(*c), ig),
        },
    decreases *c, 0int,
{
    let children = c.children();
    let ghost k = children@.len() as int;
    let (pre, post, inner_ig): (Vec<char>, Vec<char>, bool) = match c.kind() {
        ContainerNodeKind::Formatting(InlineFormatType::Italic) => (vec!['*'], vec!['*'], ig),
        ContainerNodeKind::Formatting(InlineFormatType::Bold) => (vec!['_', '_'], vec!['_', '_'], ig),
        ContainerNodeKind::Formatting(InlineFormatType::StrikeThrough) => (vec!['~', '~'], vec!['~', '~'], ig),
        ContainerNodeKind::Formatting(InlineFormatType::Underline) => (vec!['<', 'u', '>'], vec!['<', '/', 'u', '>'], ig),
        ContainerNodeKind::Formatting(InlineFormatType::InlineCode) => (vec!['`', '`', ' '], vec![' ', '`', '`'], true),
        ContainerNodeKind::Link(url) => {
            let mut post = vec![']', '(', '<'];
            let esc = escape_url_exec(url);
            push_all(&mut post, &esc);
            post.push('>');
            post.push(')');
            (vec!['['], post, ig)
        },
        ContainerNodeKind::List(_) => {
            let ol = vec!['o', 'l'];
            assert(ol@ =~= ol_name());
            let ordered = crate::kinds::chars_eq(c.name(), &ol);
            return write_list_md(children, ordered, buf, ig);
        },
        ContainerNodeKind::CodeBlock => (vec!['`', '`', '`', '\n'], vec!['\n', '`', '`', '`', '\n'], ig),
        ContainerNodeKind::Quote => (vec!['>', ' '], vec!['\n'], ig),
        _ => (Vec::new(), Vec::new(), ig),
    };
    let ghost expect_pre: Seq<char> = match c.spec_kind() {
        KindView::Formatting(InlineFormatType::Italic) => seq!['*'],
        KindView::Formatting(InlineFormatType::Bold) => seq!['_', '_'],
        KindView::Formatting(InlineFormatType::StrikeThrough) => seq!['~', '~'],
        KindView::Formatting(InlineFormatType::Underline) => seq!['<', 'u', '>'],
        KindView::Formatting(InlineFormatType::InlineCode) => seq!['`', '`', ' '],
        KindView::Link(_) => seq!['['],
        KindView::CodeBlock => seq!['`', '`', '`', '\n'],
        KindView::Quote => seq!['>', ' '],
        _ => Seq::empty(),
    };
    let ghost expect_post: Seq<char> = match c.spec_kind() {
        KindView::Formatting(InlineFormatType::Italic) => seq!['*'],
        KindView::Formatting(InlineFormatType::Bold) => seq!['_', '_'],
        KindView::Formatting(InlineFormatType::StrikeThrough) => seq!['~', '~'],
        KindView::Formatting(InlineFormatType::Underline) => seq!['<', '/', 'u', '>'],
        KindView::Formatting(InlineFormatType::InlineCode) => seq![' ', '`', '`'],
        KindView::Link(url) => seq![']', '(', '<'] + escape_url(url) + seq!['>', ')'],
        KindView::CodeBlock => seq!['\n', '`', '`', '`', '\n'],
        KindView::Quote => seq!['\n'],
        _ => Seq::empty(),
    };
    assert(pre@ =~= expect_pre);
    assert(post@ =~= expect_post);
    let ghost start = buf@;
    push_all(buf, &pre);
    let r = write_children_md(children, buf, inner_ig);
    match r {
        Err(e) => {
            assert(buf@ =~= start + (expect_pre + md_children_partial(children@, k, inner_ig)));
            return Err(e);
        },
        Ok(_) => {},
    }
    push_all(buf, &post);
    Ok(())
}

/// Conversion of a node or a document to markdown.
pub trait ToMarkdown {
    /// The markdown of this item, or the name of the invalid list item
    /// found; `ig` tells whether line breaks are written as a space.
    spec fn spec_markdown(&self, ig: bool) -> MdResult;

    /// What writing the markdown of this item leaves written when it fails.
    spec fn spec_markdown_partial(&self, ig: bool) -> Seq<char>;

    /// Append the markdown of this item to `buffer`; when it fails, what
    /// came before the invalid list item is left written.
    fn fmt_markdown(&self, buffer: &mut Vec<char>, options: &MarkdownOptions) -> (r: Result<(), MarkdownError>)
        ensures
            match r {
                Ok(_) => self.spec_markdown(ignores_line_break(*options)) matches Ok(x) && final(buffer)@ == old(buffer)@ + x,
                Err(e) => self.spec_markdown(ignores_line_break(*options)) == Err::<Seq<char>, Option<Seq<char>>>(md_error(e))
                    && final(buffer)@ == old(buffer)@ + self.spec_markdown_partial(ignores_line_break(*options)),
            },
    ;

    /// The markdown of this item on its own, with no option.
    fn to_markdown(&self) -> (r: Result<Vec<char>, MarkdownError>)
        ensures
            match r {
                Ok(v) => self.spec_markdown(false) == Ok::<Seq<char>, Option<Seq<char>>>(v@),
                Err(e) => self.spec_markdown(false) == Err::<Seq<char>, Option<Seq<char>>>(md_error(e)),
            },
    {
        let mut buffer: Vec<char> = Vec::new();
        let o = MarkdownOptions::empty();
        assert(0u8 & 1u8 == 0u8) by (bit_vector);
        match self.fmt_markdown(&mut buffer, &o) {
            Ok(_) => {
                assert(buffer@ =~= self.spec_markdown(false)->Ok_0);
                Ok(buffer)
            },
            Err(e) => Err(e),
        }
    }
}

/// Whether the options ask for line breaks to be written as a space.
fn ignore_flag(options: &MarkdownOptions) -> (b: bool)
    ensures
        b == ignores_line_break(*options),
{
    options.contains(MarkdownOptions::ignore_line_break())
}

impl ToMarkdown for DomNode {
    open spec fn spec_markdown(&self, ig: bool) -> MdResult {
        md_node(*self, ig)
    }

    open spec fn spec_markdown_partial(&self, ig: bool) -> Seq<char> {
        md_node_partial(*self, ig)
    }

    fn fmt_markdown(&self, buffer: &mut Vec<char>, options: &MarkdownOptions) -> (r: Result<(), MarkdownError>) {
        let ig = ignore_flag(options);
        let r = write_node_md(self, buffer, ig);
        proof {
            assert(self.spec_markdown_partial(ig) == md_node_partial(*self, ig));
        }
        r
    }
}

impl ToMarkdown for ContainerNode {
    open spec fn spec_markdown(&self, ig: bool) -> MdResult {
        md_node(DomNode::Container(*self), ig)
    }

    open spec fn spec_markdown_partial(&self, ig: bool) -> Seq<char> {
        md_node_partial(DomNode::Container(*self), ig)
    }

    fn fmt_markdown(&self, buffer: &mut Vec<char>, options: &MarkdownOptions) -> (r: Result<(), MarkdownError>) {
        let ig = ignore_flag(options);
        proof {
            lemma_container_decreases_children(*self);
        }
        let r = write_container_md(self, buffer, ig);
        proof {
            assert(self.spec_markdown_partial(ig) == md_node_partial(DomNode::Container(*self), ig));
        }
        r
    }
}

impl ToMarkdown for TextNode {
    open spec fn spec_markdown_partial(&self, ig: bool) -> Seq<char> {
        Seq::empty()
    }

    open spec fn spec_markdown(&self, ig: bool) -> MdResult {
        Ok(self.spec_data())
    }

    fn fmt_markdown(&self, buffer: &mut Vec<char>, options: &MarkdownOptions) -> (r: Result<(), MarkdownError>) {
        push_all(buffer, self.data());
        Ok(())
    }
}

impl ToMarkdown for LineBreakNode {
    open spec fn spec_markdown_partial(&self, ig: bool) -> Seq<char> {
        Seq::empty()
    }

    open spec fn spec_markdown(&self, ig: bool) -> MdResult {
        Ok(if ig { seq![' '] } else { seq!['\\', '\n'] })
    }

    fn fmt_markdown(&self, buffer: &mut Vec<char>, options: &MarkdownOptions) -> (r: Result<(), MarkdownError>) {
        if ignore_flag(options) {
            buffer.push(' ');
        } else {
            buffer.push('\\');
            buffer.push('\n');
            assert(buffer@ =~= old(buffer)@ + seq!['\\', '\n']);
        }
        Ok(())
    }
}

impl ToMarkdown for ZwspNode {
    open spec fn spec_markdown_partial(&self, ig: bool) -> Seq<char> {
        Seq::empty()
    }

    open spec fn spec_markdown(&self, ig: bool) -> MdResult {
        Ok(self.spec_data())
    }

    fn fmt_markdown(&self, buffer: &mut Vec<char>, options: &MarkdownOptions) -> (r: Result<(), MarkdownError>) {
        push_all(buffer, self.data());
        Ok(())
    }
}

impl ToMarkdown for MentionNode {
    open spec fn spec_markdown_partial(&self, ig: bool) -> Seq<char> {
        Seq::empty()
    }

    open spec fn spec_markdown(&self, ig: bool) -> MdResult {
        Ok(self.spec_markdown_text())
    }

    fn fmt_markdown(&self, buffer: &mut Vec<char>, options: &MarkdownOptions) -> (r: Result<(), MarkdownError>) {
        let t = self.markdown_text();
        push_all(buffer, &t);
        Ok(())
    }
}

impl ToMarkdown for crate::dom::Dom {
    open spec fn spec_markdown(&self, ig: bool) -> MdResult {
        md_node(self.spec_document(), ig)
    }

    open spec fn spec_markdown_partial(&self, ig: bool) -> Seq<char> {
        md_node_partial(self.spec_document(), ig)
    }

    fn fmt_markdown(&self, buffer: &mut Vec<char>, options: &MarkdownOptions) -> (r: Result<(), MarkdownError>) {
        let ig = ignore_flag(options);
        let r = write_node_md(self.document_node(), buffer, ig);
        proof {
            assert(self.spec_markdown_partial(ig) == md_node_partial(self.spec_document(), ig));
        }
        r
    }
}

} // verus!

use vstd::prelude::*;

use crate::action_list::{DomAction, additions_of, moves_of, removals_of};
use crate::dom::{Dom, children_at, container_at};
use crate::html::escape_text;
use crate::find_extended_range::{ends_walk, walk_back_len, walk_fwd_len};
use crate::html::{attrs_html, node_html};
use crate::kinds::ListType;
use crate::markdown::{decimal, md_list};
use crate::markdown_html::{count_matches, replace_all, replace_in_turn, starts_with, tidy_markdown_html, tidy_steps};
use crate::parser::{ParsedElement, ParsedNode, Shape, conv_node, conv_nodes};
use crate::tree::{KindView, MentionNode};
use crate::tree::{DomNode, handles_ok, lemma_node_at_handle, lemma_same_children_iff, lemma_same_content_refl, node_at, node_len, nodes_len, rehandled_from, same_children, same_content, updated_at};

verus! {

/// Two nodes with the same content as a third have the same content as
/// each other, whichever way round.
pub proof fn lemma_same_content_sym_trans(a: DomNode, b: DomNode, c: DomNode)
    ensures
        same_content(a, b) ==> same_content(b, a),
        same_content(a, b) && same_content(b, c) ==> same_content(a, c),
    decreases a,
{
    match (a, b, c) {
        (DomNode::Container(x), DomNode::Container(y), DomNode::Container(z)) => {
            let xs = x.spec_children();
            let ys = y.spec_children();
            let zs = z.spec_children();
            lemma_same_children_iff(xs, ys);
            lemma_same_children_iff(ys, xs);
            lemma_same_children_iff(ys, zs);
            lemma_same_children_iff(xs, zs);
            assert forall|i: int| 0 <= i < xs.len() && i < ys.len() && i < zs.len() implies (same_content(xs[i], ys[i]) ==> same_content(ys[i], xs[i])) && (same_content(xs[i], ys[i]) && same_content(ys[i], zs[i]) ==> same_content(xs[i], zs[i])) by {
                crate::tree::lemma_container_child_decreases(x, i);
                lemma_same_content_sym_trans(xs[i], ys[i], zs[i]);
            }
            if same_content(a, b) {
                assert forall|i: int| 0 <= i < ys.len() implies #[trigger] same_content(ys[i], xs[i]) by {
                    crate::tree::lemma_container_child_decreases(x, i);
                    lemma_same_content_sym_trans(xs[i], ys[i], xs[i]);
                }
            }
        },
        (DomNode::Container(x), DomNode::Container(y), _) => {
            let xs = x.spec_children();
            let ys = y.spec_children();
            lemma_same_children_iff(xs, ys);
            lemma_same_children_iff(ys, xs);
            if same_content(a, b) {
                assert forall|i: int| 0 <= i < ys.len() implies #[trigger] same_content(ys[i], xs[i]) by {
                    crate::tree::lemma_container_child_decreases(x, i);
                    lemma_same_content_sym_trans(xs[i], ys[i], xs[i]);
                }
            }
        },
        _ => {},
    }
}

/// Inserting a node into a container and then removing the node at the same
/// place gives back children with the content that the container held, and
/// the node removed has the content of the node inserted.
pub proof fn law_insert_then_remove(d0: Dom, d1: Dom, d2: Dom, path: Seq<usize>, i: int, node: DomNode, removed: DomNode)
    requires
        container_at(d0.spec_document(), path),
        0 <= i <= children_at(d0.spec_document(), path).len(),
        rehandled_from(children_at(d0.spec_document(), path).insert(i, node), children_at(d1.spec_document(), path), path, i),
        removed == children_at(d1.spec_document(), path)[i],
        rehandled_from(children_at(d1.spec_document(), path).remove(i), children_at(d2.spec_document(), path), path, i),
    ensures
        same_children(children_at(d0.spec_document(), path), children_at(d2.spec_document(), path)),
        same_content(node, removed),
{
    let c0 = children_at(d0.spec_document(), path);
    let c1 = children_at(d1.spec_document(), path);
    let c2 = children_at(d2.spec_document(), path);
    assert(c0.insert(i, node)[i] == node);
    assert forall|j: int| 0 <= j < c0.len() implies #[trigger] same_content(c0[j], c2[j]) by {
        if j < i {
            assert(c1.remove(i)[j] == c1[j]);
            assert(c0.insert(i, node)[j] == c0[j]);
            lemma_same_content_refl(c0[j]);
        } else {
            assert(c1.remove(i)[j] == c1[j + 1]);
            assert(c0.insert(i, node)[j + 1] == c0[j]);
            assert(same_content(c0.insert(i, node)[j + 1], c1[j + 1]));
            assert(same_content(c1.remove(i)[j], c2[j]));
            lemma_same_content_sym_trans(c0[j], c1[j + 1], c2[j]);
        }
    }
    lemma_same_children_iff(c0, c2);
}

proof fn lemma_nodes_len_same(s: Seq<DomNode>, t: Seq<DomNode>)
    requires
        s.len() == t.len(),
        forall|j: int| 0 <= j < s.len() ==> #[trigger] node_len(s[j]) == node_len(t[j]),
    ensures
        nodes_len(s) == nodes_len(t),
    decreases s.len(),
{
    if s.len() > 0 {
        assert forall|j: int| 0 <= j < s.drop_last().len() implies #[trigger] node_len(s.drop_last()[j]) == node_len(t.drop_last()[j]) by {
            assert(s.drop_last()[j] == s[j]);
            assert(t.drop_last()[j] == t[j]);
            assert(node_len(s[j]) == node_len(t[j]));
        }
        lemma_nodes_len_same(s.drop_last(), t.drop_last());
        assert(node_len(s[s.len() - 1]) == node_len(t[t.len() - 1]));
        assert(nodes_len(s) == nodes_len(s.drop_last()) + node_len(s.last()));
        assert(nodes_len(t) == nodes_len(t.drop_last()) + node_len(t.last()));
    }
}

proof fn lemma_nodes_len_insert(s: Seq<DomNode>, i: int, n: DomNode)
    requires
        0 <= i <= s.len(),
    ensures
        nodes_len(s.insert(i, n)) == nodes_len(s) + node_len(n),
    decreases s.len(),
{
    if i == s.len() {
        assert(s.insert(i, n) =~= s.push(n));
        crate::tree::lemma_nodes_len_push(s, n);
    } else {
        lemma_nodes_len_insert(s.drop_last(), i, n);
        let t = s.insert(i, n);
        assert(t.drop_last() =~= s.drop_last().insert(i, n));
        assert(t.last() == s.last());
        assert(nodes_len(t) == nodes_len(t.drop_last()) + node_len(t.last()));
        assert(nodes_len(s) == nodes_len(s.drop_last()) + node_len(s.last()));
    }
}

/// Taking a node out of a sequence takes its text length with it.
pub proof fn lemma_nodes_len_remove(s: Seq<DomNode>, i: int)
    requires
        0 <= i < s.len(),
    ensures
        nodes_len(s.remove(i)) + node_len(s[i]) == nodes_len(s),
{
    lemma_nodes_len_insert(s.remove(i), i, s[i]);
    assert(s.remove(i).insert(i, s[i]) =~= s);
}

proof fn lemma_nodes_len_update(s: Seq<DomNode>, i: int, n: DomNode)
    requires
        0 <= i < s.len(),
    ensures
        nodes_len(s.update(i, n)) + node_len(s[i]) == nodes_len(s) + node_len(n),
{
    lemma_nodes_len_remove(s, i);
    lemma_nodes_len_insert(s.remove(i), i, n);
    assert(s.remove(i).insert(i, n) =~= s.update(i, n));
}

/// Replacing the node at a path changes the text length of the tree by
/// the difference between the new node's and the old node's.
pub proof fn lemma_updated_at_len(old: DomNode, new: DomNode, path: Seq<usize>, sub: DomNode)
    requires
        updated_at(old, new, path, sub),
    ensures
        node_at(old, path) is Some,
        node_len(new) + node_len(node_at(old, path).unwrap()) == node_len(old) + node_len(sub),
    decreases path.len(),
{
    if path.len() > 0 {
        let o = old->Container_0;
        let n = new->Container_0;
        let k = path[0] as int;
        lemma_updated_at_len(o.spec_children()[k], n.spec_children()[k], path.skip(1), sub);
        assert(n.spec_children() =~= o.spec_children().update(k, n.spec_children()[k]));
        lemma_nodes_len_update(o.spec_children(), k, n.spec_children()[k]);
    }
}

/// Giving nodes new handles keeps their text length.
pub proof fn lemma_rehandled_len(old: Seq<DomNode>, new: Seq<DomNode>, p: Seq<usize>, from: int)
    requires
        rehandled_from(old, new, p, from),
    ensures
        nodes_len(new) == nodes_len(old),
{
    assert forall|j: int| 0 <= j < old.len() implies #[trigger] node_len(old[j]) == node_len(new[j]) by {
        if j >= from {
            crate::tree::lemma_same_content_len(old[j], new[j]);
        }
    }
    lemma_nodes_len_same(old, new);
}

/// Inserting a node into a container of a document lengthens the
/// document's text by the node's text.
pub proof fn law_insert_adds_text(d0: Dom, d1: Dom, path: Seq<usize>, i: int, node: DomNode)
    requires
        Dom::changed_at(d0, d1, path),
        container_at(d0.spec_document(), path),
        0 <= i <= children_at(d0.spec_document(), path).len(),
        rehandled_from(children_at(d0.spec_document(), path).insert(i, node), children_at(d1.spec_document(), path), path, i),
    ensures
        node_len(d1.spec_document()) == node_len(d0.spec_document()) + node_len(node),
{
    let sub = node_at(d1.spec_document(), path).unwrap();
    lemma_updated_at_len(d0.spec_document(), d1.spec_document(), path, sub);
    lemma_rehandled_len(children_at(d0.spec_document(), path).insert(i, node), children_at(d1.spec_document(), path), path, i);
    lemma_nodes_len_insert(children_at(d0.spec_document(), path), i, node);
}

/// Removing a node from a container of a document shortens the document's
/// text by the node's text.
pub proof fn law_remove_takes_text(d0: Dom, d1: Dom, path: Seq<usize>, i: int)
    requires
        Dom::changed_at(d0, d1, path),
        container_at(d0.spec_document(), path),
        0 <= i < children_at(d0.spec_document(), path).len(),
        rehandled_from(children_at(d0.spec_document(), path).remove(i), children_at(d1.spec_document(), path), path, i),
    ensures
        node_len(d1.spec_document()) + node_len(children_at(d0.spec_document(), path)[i]) == node_len(d0.spec_document()),
{
    let sub = node_at(d1.spec_document(), path).unwrap();
    lemma_updated_at_len(d0.spec_document(), d1.spec_document(), path, sub);
    lemma_rehandled_len(children_at(d0.spec_document(), path).remove(i), children_at(d1.spec_document(), path), path, i);
    lemma_nodes_len_remove(children_at(d0.spec_document(), path), i);
}

/// In a well-formed document, the node found by a path holds that path as
/// its handle.
pub proof fn law_node_knows_its_handle(d: Dom, path: Seq<usize>)
    requires
        d.wf(),
        node_at(d.spec_document(), path) is Some,
    ensures
        node_at(d.spec_document(), path).unwrap().spec_handle() == Some(path),
{
    lemma_node_at_handle(d.spec_document(), Seq::<usize>::empty(), path);
    assert(Seq::<usize>::empty() + path =~= path);
    let n = node_at(d.spec_document(), path).unwrap();
    assert(handles_ok(n, path));
}

/// Escaped text holds no `<` and no `>`.
pub proof fn law_escaped_text_has_no_tags(s: Seq<char>)
    ensures
        forall|i: int| 0 <= i < escape_text(s).len() ==> #[trigger] escape_text(s)[i] != '<' && escape_text(s)[i] != '>',
    decreases s.len(),
{
    if s.len() > 0 {
        law_escaped_text_has_no_tags(s.drop_last());
        let p = escape_text(s.drop_last());
        let c = s.last();
        assert forall|i: int| 0 <= i < escape_text(s).len() implies #[trigger] escape_text(s)[i] != '<' && escape_text(s)[i] != '>' by {
            if i >= p.len() {
                assert(escape_text(s)[i] == crate::html::escape_char(c)[i - p.len()]);
            } else {
                assert(escape_text(s)[i] == p[i]);
            }
        }
    }
}

/// Text with no `&`, `<` or `>` is its own escaped form.
pub proof fn law_plain_text_escapes_to_itself(s: Seq<char>)
    requires
        forall|i: int| 0 <= i < s.len() ==> #[trigger] s[i] != '&' && s[i] != '<' && s[i] != '>',
    ensures
        escape_text(s) == s,
    decreases s.len(),
{
    if s.len() > 0 {
        law_plain_text_escapes_to_itself(s.drop_last());
        assert(s.drop_last().push(s.last()) =~= s);
    }
}

/// The additions, removals and moves of a list of changes make up the whole
/// list.
pub proof fn law_grouped_partitions(s: Seq<DomAction>)
    ensures
        additions_of(s).len() + removals_of(s).len() + moves_of(s).len() == s.len(),
    decreases s.len(),
{
    if s.len() > 0 {
        law_grouped_partitions(s.drop_last());
    }
}

/// Once flags are inserted into options, the options contain them.
pub proof fn law_options_insert_then_contains(bits: u8, other: u8)
    ensures
        (bits | other) & other == other,
{
    assert((bits | other) & other == other) by (bit_vector);
}

/// Moving a location forward by `r` and back by `r` gives it back, when it
/// did not stop at 0 on the way forward.
pub proof fn law_location_add_then_sub(a: int, r: int)
    requires
        a >= 0,
        a + r >= 0,
    ensures
        ({
            let after_add = if a + r < 0 { 0 } else { a + r };
            let after_sub = if after_add - r < 0 { 0 } else { after_add - r };
            after_sub == a
        }),
{
}

/// Text in which the pattern does not occur is left as it is by a
/// replacement of the pattern.
pub proof fn law_replace_absent_pattern(s: Seq<char>, p: Seq<char>, r: Seq<char>)
    requires
        p.len() > 0,
        count_matches(s, p) == 0,
    ensures
        replace_all(s, p, r) == s,
    decreases s.len(),
{
    if s.len() >= p.len() {
        assert(!starts_with(s, p));
        law_replace_absent_pattern(s.skip(1), p, r);
        assert(seq![s[0]] + s.skip(1) =~= s);
    }
}

/// A leaf kind is neither a block kind, nor a list or list item, nor a
/// code kind.
pub proof fn law_leaf_kinds_are_not_blocks(k: crate::tree::DomNodeKind)
    ensures
        crate::tree::is_leaf_kind(k) ==> !crate::tree::is_block_kind(k) && !(k is List || k is ListItem) && !(
        k is CodeBlock || k == crate::tree::DomNodeKind::Formatting(crate::kinds::InlineFormatType::InlineCode)),
{
}

/// Replacing the text from `start` to `end` with `ins`, and then replacing
/// the inserted text with what was there before, gives back the text:
/// typing over a selection is undone by putting the selection back.
pub proof fn law_replace_then_restore(t: Seq<char>, start: int, end: int, ins: Seq<char>)
    requires
        0 <= start <= end <= t.len(),
    ensures
        ({
            let t1 = t.take(start) + ins + t.skip(end);
            t1.take(start) + t.subrange(start, end) + t1.skip(start + ins.len()) == t
        }),
{
    let t1 = t.take(start) + ins + t.skip(end);
    assert(t1.take(start) =~= t.take(start));
    assert(t1.skip(start + ins.len()) =~= t.skip(end));
    assert(t.take(start) + t.subrange(start, end) + t.skip(end) =~= t);
}

/// `p` occurs in `s` at position `i`.
pub open spec fn occurs_at(s: Seq<char>, p: Seq<char>, i: int) -> bool {
    0 <= i && i + p.len() <= s.len() && s.subrange(i, i + p.len()) == p
}

/// The HTML of a mention is a link to the mention's target that cannot be
/// edited and shows the mention's text: it starts with `<a`, holds
/// ` href="`, the target (its Matrix URI, or `#` for an at-room mention)
/// and `"`, holds ` contenteditable="false"`, and ends with the text shown
/// and `</a>`.
#[verifier::spinoff_prover]
#[verifier::rlimit(40)]
pub proof fn law_mention_html_links_to_target(m: MentionNode, is_last: bool)
    ensures
        node_html(DomNode::Mention(m), is_last).take(2) == seq!['<', 'a'],
        exists|i: int| occurs_at(
            node_html(DomNode::Mention(m), is_last),
            seq![' ', 'h', 'r', 'e', 'f', '=', '"'] + m.spec_href() + seq!['"'],
            i,
        ),
        exists|i: int| occurs_at(
            node_html(DomNode::Mention(m), is_last),
            seq![' ', 'c', 'o', 'n', 't', 'e', 'n', 't', 'e', 'd', 'i', 't', 'a', 'b', 'l', 'e', '=', '"', 'f', 'a', 'l', 's', 'e', '"'],
            i,
        ),
        node_html(DomNode::Mention(m), is_last).skip(
            node_html(DomNode::Mention(m), is_last).len() - m.spec_display_text().len() - 4,
        ) == m.spec_display_text() + seq!['<', '/', 'a', '>'],
{
    let a = m.spec_attributes();
    let hp = (seq!['h', 'r', 'e', 'f'], m.spec_href());
    let cp = (seq!['c', 'o', 'n', 't', 'e', 'n', 't', 'e', 'd', 'i', 't', 'a', 'b', 'l', 'e'], seq!['f', 'a', 'l', 's', 'e']);
    let full = a + seq![hp, cp];
    assert(full.drop_last() =~= a.push(hp));
    assert(a.push(hp).drop_last() =~= a);
    let ha = seq![' ', 'h', 'r', 'e', 'f', '=', '"'] + m.spec_href() + seq!['"'];
    let ca = seq![' ', 'c', 'o', 'n', 't', 'e', 'n', 't', 'e', 'd', 'i', 't', 'a', 'b', 'l', 'e', '=', '"', 'f', 'a', 'l', 's', 'e', '"'];
    assert(attrs_html(a.push(hp)) =~= attrs_html(a) + ha);
    assert(attrs_html(full) =~= attrs_html(a) + ha + ca);
    let h = node_html(DomNode::Mention(m), is_last);
    let d = m.spec_display_text();
    let pre = seq!['<', 'a'] + attrs_html(a);
    assert(h =~= pre + ha + ca + seq!['>'] + d + seq!['<', '/', 'a', '>']);
    let i1: int = pre.len() as int;
    let i2: int = i1 + ha.len();
    assert(occurs_at(h, ha, i1)) by {
        assert(h.subrange(i1, i1 + ha.len()) =~= ha);
    }
    assert(occurs_at(h, ca, i2)) by {
        assert(h.subrange(i2, i2 + ca.len()) =~= ca);
    }
    assert(h.take(2) =~= seq!['<', 'a']);
    assert(h.skip(h.len() - d.len() - 4) =~= d + seq!['<', '/', 'a', '>']);
}

/// Parsing an element named `ul` or `ol` gives one list container of that
/// name, holding what the element's children become, whose list type
/// follows the name: `ul` a bulleted list, `ol` a numbered one.
pub proof fn law_parsed_list_type_follows_tag(e: ParsedElement, in_code: bool)
    requires
        e.name@ == seq!['u', 'l'] || e.name@ == seq!['o', 'l'],
    ensures
        conv_node(ParsedNode::Element(e), in_code).len() == 1,
        conv_node(ParsedNode::Element(e), in_code)[0] == (Shape::Container {
            name: e.name@,
            kind: KindView::List(
                if e.name@ == seq!['u', 'l'] {
                    ListType::Unordered
                } else {
                    ListType::Ordered
                },
            ),
            attrs: None,
            children: conv_nodes(e.children@, e.children@.len() as int, in_code),
        }),
{
    crate::parser::lemma_literals();
    assert(e.name@.len() == 2);
    assert(e.name@ != "em"@) by {
        assert(e.name@[0] != "em"@[0]);
    }
    assert(e.name@ != "br"@) by {
        assert(e.name@[0] != "br"@[0]);
    }
    assert(!crate::parser::is_format_tag(e.name@));
    if e.name@ == seq!['u', 'l'] {
        assert(crate::parser::tag_kind(e.name@) == crate::parser::TagKind::Unordered);
        assert(crate::kinds::list_tag(ListType::Unordered) == e.name@);
    } else {
        assert(crate::parser::tag_kind(e.name@) == crate::parser::TagKind::Ordered);
        assert(crate::kinds::list_tag(ListType::Ordered) == e.name@);
    }
}

/// The walk that extends a selection takes nothing from the nodes after the
/// first block node or list item it meets: walking `s` from `j`, forward or
/// back, gives what walking only the nodes before such a node at `k` gives.
pub proof fn law_extension_stops_at_block(doc: DomNode, s: Seq<DomNode>, j: int, k: int)
    requires
        0 <= j <= k < s.len(),
        ends_walk(s[k]),
    ensures
        walk_fwd_len(doc, s, j) == walk_fwd_len(doc, s.take(k), j),
        walk_back_len(s, j) == walk_back_len(s.take(k), j),
    decreases k - j,
{
    if j < k {
        law_extension_stops_at_block(doc, s, j + 1, k);
        assert(s.take(k)[j] == s[j]);
    }
}

/// A list item: a container of the list item kind named `li`.
pub open spec fn is_list_item_node(n: DomNode) -> bool {
    n matches DomNode::Container(c) && c.spec_kind() is ListItem && c.spec_name() == seq!['l', 'i']
}

/// How many of the nodes of `s` are list items.
pub open spec fn count_list_items(s: Seq<DomNode>) -> nat
    decreases s.len(),
{
    if s.len() == 0 {
        0
    } else {
        count_list_items(s.drop_last()) + if is_list_item_node(s.last()) {
            1nat
        } else {
            0nat
        }
    }
}

/// The markdown of the first `j + 1` children of a numbered list is that of
/// the first `j` followed, for a list item, by one plus the number of list
/// items before it, a dot and a space, and by nothing for any other child.
pub open spec fn numbered_step(s: Seq<DomNode>, j: int, ig: bool) -> bool {
    let before = md_list(s, j, true, ig)->Ok_0.0;
    let after = md_list(s, j + 1, true, ig)->Ok_0.0;
    let number = decimal(count_list_items(s.take(j)) + 1) + seq!['.', ' '];
    &&& md_list(s, j, true, ig) is Ok
    &&& md_list(s, j + 1, true, ig) is Ok
    &&& after.take(before.len() as int) == before
    &&& is_list_item_node(s[j]) ==> after.skip(before.len() as int).take(number.len() as int) == number
    &&& !is_list_item_node(s[j]) ==> after == before
}

/// In the markdown of a numbered list, each list item is numbered by its
/// place among the list items: the markdown of the first `j + 1` children
/// is that of the first `j` followed, for a list item, by one plus the
/// number of list items before it, a dot and a space; any other child that
/// the markdown accepts (blank text) adds nothing and counts for nothing.
/// The count handed on after `k` children is the number of list items among
/// them.
pub proof fn law_ordered_list_numbering(s: Seq<DomNode>, k: int, ig: bool)
    requires
        0 <= k <= s.len(),
        md_list(s, k, true, ig) is Ok,
    ensures
        md_list(s, k, true, ig)->Ok_0.1 == count_list_items(s.take(k)),
        forall|j: int|
            0 <= j < k ==> #[trigger] numbered_step(s, j, ig),
    decreases k,
{
    if k > 0 {
        assert(md_list(s, k - 1, true, ig) is Ok);
        law_ordered_list_numbering(s, k - 1, ig);
        let before = md_list(s, k - 1, true, ig)->Ok_0.0;
        let cnt = md_list(s, k - 1, true, ig)->Ok_0.1;
        let after = md_list(s, k, true, ig)->Ok_0.0;
        assert(s.take(k).drop_last() =~= s.take(k - 1));
        assert(s.take(k).last() == s[k - 1]);
        let number = decimal(count_list_items(s.take(k - 1)) + 1) + seq!['.', ' '];
        let piece = crate::markdown::md_list_piece(s[k - 1], cnt, true, ig, k - 1 == s.len() - 1);
        assert(piece is Ok);
        let px = piece->Ok_0.0;
        assert(after == before + px);
        if is_list_item_node(s[k - 1]) {
            let c = s[k - 1]->Container_0;
            assert(c.spec_kind() is ListItem && c.spec_name() == crate::markdown::li_name());
            let x = crate::markdown::md_node(s[k - 1], ig)->Ok_0;
            assert(px == decimal(cnt + 1) + seq!['.'] + seq![' '] + crate::markdown::indent_lines(x, decimal(cnt + 1).len() + 1) + (if k - 1 == s.len() - 1 {
                Seq::<char>::empty()
            } else {
                seq!['\n']
            }));
            assert(px.take(number.len() as int) =~= number);
            assert(after.take(before.len() as int) =~= before);
            assert(after.skip(before.len() as int).take(number.len() as int) =~= number);
        } else {
            assert(s[k - 1] is Text);
            assert(px == Seq::<char>::empty());
            assert(after =~= before);
        }
        assert forall|j: int|
            0 <= j < k implies #[trigger] numbered_step(s, j, ig) by {
            if j < k - 1 {
                assert(numbered_step(s, j, ig));
            } else {
                assert(j == k - 1);
                assert(after.take(before.len() as int) =~= before);
                if is_list_item_node(s[j]) {
                    assert(after.skip(before.len() as int) =~= px);
                    assert(after.skip(before.len() as int).take(number.len() as int) =~= number);
                }
            }
        }
    }
}

/// No newline in `s` is followed by another one.
pub open spec fn no_blank_line(s: Seq<char>) -> bool {
    forall|i: int| #![trigger s[i]] 0 <= i < s.len() - 1 ==> !(s[i] == '\n' && s[i + 1] == '\n')
}

proof fn lemma_no_blank_line_concat(a: Seq<char>, b: Seq<char>)
    requires
        no_blank_line(a),
        no_blank_line(b),
        !(a.len() > 0 && b.len() > 0 && a.last() == '\n' && b[0] == '\n'),
    ensures
        no_blank_line(a + b),
{
    let ab = a + b;
    assert forall|i: int| #![trigger ab[i]] 0 <= i < ab.len() - 1 implies !(ab[i] == '\n' && ab[i + 1] == '\n') by {
        if i + 1 < a.len() {
            assert(ab[i] == a[i] && ab[i + 1] == a[i + 1]);
        } else if i >= a.len() {
            assert(ab[i] == b[i - a.len()] && ab[i + 1] == b[i + 1 - a.len()]);
        } else {
            assert(ab[i] == a.last() && ab[i + 1] == b[0]);
        }
    }
}

proof fn lemma_no_blank_line_subrange(s: Seq<char>, lo: int, hi: int)
    requires
        no_blank_line(s),
        0 <= lo <= hi <= s.len(),
    ensures
        no_blank_line(s.subrange(lo, hi)),
{
    let t = s.subrange(lo, hi);
    assert forall|i: int| #![trigger t[i]] 0 <= i < t.len() - 1 implies !(t[i] == '\n' && t[i + 1] == '\n') by {
        assert(t[i] == s[lo + i] && t[i + 1] == s[lo + i + 1]);
    }
}

/// The first character of a replacement's result comes from the text or
/// from the replacement.
proof fn lemma_replace_all_first(t: Seq<char>, p: Seq<char>, r: Seq<char>)
    requires
        p.len() > 0,
        r.len() > 0,
        t.len() > 0,
    ensures
        replace_all(t, p, r).len() > 0,
        replace_all(t, p, r)[0] == t[0] || (starts_with(t, p) && replace_all(t, p, r)[0] == r[0]),
{
}

/// Taking the newline off the end of each occurrence of `r` followed by a
/// newline makes no blank line.
proof fn lemma_drop_newline_no_blank(s: Seq<char>, p: Seq<char>, r: Seq<char>)
    requires
        p == r.push('\n'),
        r.len() > 0,
        r[0] != '\n',
        r.last() != '\n',
        no_blank_line(r),
        no_blank_line(s),
    ensures
        no_blank_line(replace_all(s, p, r)),
    decreases s.len(),
{
    if s.len() < p.len() {
    } else if starts_with(s, p) {
        let t = s.skip(p.len() as int);
        lemma_no_blank_line_subrange(s, p.len() as int, s.len() as int);
        lemma_drop_newline_no_blank(t, p, r);
        lemma_no_blank_line_concat(r, replace_all(t, p, r));
    } else {
        let t = s.skip(1);
        lemma_no_blank_line_subrange(s, 1, s.len() as int);
        lemma_drop_newline_no_blank(t, p, r);
        let rt = replace_all(t, p, r);
        assert(no_blank_line(seq![s[0]]));
        if t.len() > 0 {
            lemma_replace_all_first(t, p, r);
            assert(t[0] == s[1]);
        }
        lemma_no_blank_line_concat(seq![s[0]], rt);
    }
}

/// When the result of a replacement starts with `q`, and no character of
/// `q` is the first of the replacement, the text started with `q`.
proof fn lemma_replace_all_prefix(u: Seq<char>, p: Seq<char>, r: Seq<char>, q: Seq<char>)
    requires
        p.len() > 0,
        r.len() > 0,
        forall|i: int| 0 <= i < q.len() ==> q[i] != r[0],
        starts_with(replace_all(u, p, r), q),
    ensures
        starts_with(u, q),
    decreases q.len(),
{
    if q.len() == 0 {
        assert(u.take(0) =~= q);
    } else if u.len() < p.len() {
    } else if starts_with(u, p) {
        assert(replace_all(u, p, r)[0] == r[0]);
        assert(replace_all(u, p, r).take(q.len() as int)[0] == q[0]);
    } else {
        let rest = replace_all(u.skip(1), p, r);
        assert(replace_all(u, p, r) == seq![u[0]] + rest);
        assert(replace_all(u, p, r).take(q.len() as int)[0] == q[0]);
        assert(rest.take(q.len() - 1) =~= replace_all(u, p, r).take(q.len() as int).skip(1));
        assert(starts_with(rest, q.skip(1)));
        lemma_replace_all_prefix(u.skip(1), p, r, q.skip(1));
        assert(u.take(q.len() as int) =~= seq![u[0]] + u.skip(1).take(q.len() - 1));
        assert(q =~= seq![q[0]] + q.skip(1));
    }
}

/// The closing code tag, and the same after a newline.
pub open spec fn code_close() -> Seq<char> {
    seq!['<', '/', 'c', 'o', 'd', 'e', '>']
}

/// Once each newline before `</code>` is taken out of text with no blank
/// line, no newline stands before a `</code>`.
proof fn lemma_code_close_no_newline(s: Seq<char>, i: int)
    requires
        no_blank_line(s),
    ensures
        !occurs_at(replace_all(s, seq!['\n'] + code_close(), code_close()), seq!['\n'] + code_close(), i),
    decreases s.len(),
{
    let p = seq!['\n'] + code_close();
    let r = code_close();
    let out = replace_all(s, p, r);
    if s.len() < p.len() {
    } else if starts_with(s, p) {
        let t = s.skip(p.len() as int);
        lemma_no_blank_line_subrange(s, p.len() as int, s.len() as int);
        let rt = replace_all(t, p, r);
        assert(out == r + rt);
        if occurs_at(out, p, i) {
            if i >= r.len() {
                lemma_code_close_no_newline(t, i - r.len());
                assert(rt.subrange(i - r.len(), i - r.len() + p.len()) =~= out.subrange(i, i + p.len()));
            } else {
                assert(out.subrange(i, i + p.len())[0] == out[i]);
                assert(out[i] == r[i]);
            }
        }
    } else {
        let t = s.skip(1);
        lemma_no_blank_line_subrange(s, 1, s.len() as int);
        let rt = replace_all(t, p, r);
        assert(out == seq![s[0]] + rt);
        if occurs_at(out, p, i) {
            if i >= 1 {
                lemma_code_close_no_newline(t, i - 1);
                assert(rt.subrange(i - 1, i - 1 + p.len()) =~= out.subrange(i, i + p.len()));
            } else {
                assert(out.subrange(0, p.len() as int)[0] == s[0]);
                assert(s[0] == '\n');
                assert(rt.take(r.len() as int) =~= out.subrange(1, p.len() as int));
                assert(out.subrange(1, p.len() as int) =~= p.subrange(1, p.len() as int));
                assert(p.subrange(1, p.len() as int) =~= r);
                assert(starts_with(rt, r));
                if starts_with(t, p) {
                    assert(t[0] == s[1]);
                    assert(t.take(p.len() as int)[0] == p[0]);
                } else {
                    let q = r.skip(1);
                    assert(forall|k: int| 0 <= k < q.len() ==> q[k] != r[0]);
                    assert(rt == seq![t[0]] + replace_all(t.skip(1), p, r));
                    assert(t[0] == rt.take(r.len() as int)[0]);
                    assert(replace_all(t.skip(1), p, r).take(q.len() as int) =~= rt.take(r.len() as int).skip(1));
                    lemma_replace_all_prefix(t.skip(1), p, r, q);
                    assert(s.take(p.len() as int) =~= seq![s[0]] + seq![t[0]] + t.skip(1).take(q.len() as int));
                    assert(s.take(p.len() as int) =~= p);
                }
            }
        }
    }
}

/// Replacements that each take the newline off the end of a tag make no
/// blank line.
proof fn lemma_steps_no_blank(h: Seq<char>, steps: Seq<(Seq<char>, Seq<char>)>)
    requires
        no_blank_line(h),
        forall|k: int| 0 <= k < steps.len() ==> {
            let (p, r) = #[trigger] steps[k];
            &&& p == r.push('\n')
            &&& r.len() > 0
            &&& r[0] != '\n'
            &&& r.last() != '\n'
            &&& no_blank_line(r)
        },
    ensures
        no_blank_line(replace_in_turn(h, steps)),
    decreases steps.len(),
{
    if steps.len() > 0 {
        assert forall|k: int| 0 <= k < steps.drop_last().len() implies {
            let (p, r) = #[trigger] steps.drop_last()[k];
            &&& p == r.push('\n')
            &&& r.len() > 0
            &&& r[0] != '\n'
            &&& r.last() != '\n'
            &&& no_blank_line(r)
        } by {
            assert(steps.drop_last()[k] == steps[k]);
        }
        lemma_steps_no_blank(h, steps.drop_last());
        let last = steps[steps.len() - 1];
        lemma_drop_newline_no_blank(replace_in_turn(h, steps.drop_last()), last.0, last.1);
    }
}

/// A tag written by markdown is a `<`, then characters that are neither a
/// newline nor a `<`, then a `>`.
pub open spec fn plain_tag(r: Seq<char>) -> bool {
    &&& r.len() >= 2
    &&& r[0] == '<'
    &&& r.last() == '>'
    &&& forall|i: int| 0 < i < r.len() ==> r[i] != '\n' && r[i] != '<'
}

/// The HTML that markdown gives keeps no newline at the end of a code
/// block's content: when that HTML holds no blank line, no newline stands
/// before a `</code>` in the tidied HTML. (A code block whose content ends
/// in a blank line keeps one newline there, as the HTML of markdown does.)
pub proof fn law_code_blocks_lose_trailing_newline(h: Seq<char>, i: int)
    requires
        no_blank_line(h),
        tidy_markdown_html(h) is Ok,
    ensures
        !occurs_at(tidy_markdown_html(h)->Ok_0, seq!['\n'] + code_close(), i),
{
    reveal_strlit("<ul>\n");
    reveal_strlit("<ul>");
    reveal_strlit("</ul>\n");
    reveal_strlit("</ul>");
    reveal_strlit("<ol>\n");
    reveal_strlit("<ol>");
    reveal_strlit("</ol>\n");
    reveal_strlit("</ol>");
    reveal_strlit("</li>\n");
    reveal_strlit("</li>");
    reveal_strlit("<br />\n");
    reveal_strlit("<br />");
    reveal_strlit("<blockquote>\n");
    reveal_strlit("<blockquote>");
    reveal_strlit("</blockquote>\n");
    reveal_strlit("</blockquote>");
    reveal_strlit("<pre>\n");
    reveal_strlit("<pre>");
    reveal_strlit("</pre>\n");
    reveal_strlit("</pre>");
    reveal_strlit("<p>\n");
    reveal_strlit("<p>");
    reveal_strlit("</p>\n");
    reveal_strlit("</p>");
    reveal_strlit("\n</code>");
    reveal_strlit("</code>");
    let steps = tidy_steps();
    let first = steps.drop_last();
    assert forall|k: int| 0 <= k < first.len() implies {
        let (p, r) = #[trigger] first[k];
        &&& p == r.push('\n')
        &&& r.len() > 0
        &&& r[0] != '\n'
        &&& r.last() != '\n'
        &&& no_blank_line(r)
    } by {
        let (p, r) = first[k];
        assert(first[k] == steps[k]);
        assert(p =~= r.push('\n'));
        assert(plain_tag(r));
    }
    let u = crate::markdown_html::unwrap_paragraph(h);
    if crate::markdown_html::is_single_paragraph(h) {
        lemma_no_blank_line_subrange(h, 3, h.len() - 5);
    }
    lemma_steps_no_blank(u, first);
    assert(steps.last() == (seq!['\n'] + code_close(), code_close()));
    lemma_code_close_no_newline(replace_in_turn(u, first), i);
}

} // verus!

use vstd::prelude::*;

use crate::dom::Dom;
use crate::html::push_chars;
use crate::leaf_nodes::copy_range;
use crate::tree::{ContainerNode, DomNode, children_ok, container_ok, handles_ok, lemma_children_ok_iff, lemma_container_child_decreases, lemma_nodes_len_prefix_le, lemma_nodes_len_prefix_step, lemma_same_content_units, lemma_units_children_first, lemma_units_children_same, lemma_units_children_split, lemma_units_len, node_len, nodes_len, rehandled_from, same_content, text_units, units_children};

verus! {

/// The text of a sequence of nodes, one character per code unit.
pub open spec fn units_of(s: Seq<DomNode>) -> Seq<char> {
    units_children(s, s.len() as int)
}

/// `x` clamped to `0..=n`.
pub open spec fn clamp(x: int, n: int) -> int {
    if x < 0 {
        0
    } else if x > n {
        n
    } else {
        x
    }
}

/// `t` with the characters from position `s` up to position `e` taken out,
/// both positions clamped to the text.
pub open spec fn cut_text(t: Seq<char>, s: int, e: int) -> Seq<char> {
    t.take(clamp(s, t.len() as int)) + t.skip(clamp(e, t.len() as int))
}

/// `t` with `ins` put in at position `s`.
pub open spec fn spliced_text(t: Seq<char>, s: int, ins: Seq<char>) -> Seq<char> {
    t.take(s) + ins + t.skip(s)
}

/// Cutting a range out of two texts put together cuts it out of each, the
/// range taken relative to where each starts.
pub proof fn lemma_cut_concat(x: Seq<char>, b: Seq<char>, s: int, e: int)
    requires
        s <= e,
    ensures
        cut_text(x + b, s, e) == cut_text(x, s, e) + cut_text(b, s - x.len(), e - x.len()),
{
    let m = x.len() as int;
    let xb = x + b;
    if e <= m {
        assert(cut_text(xb, s, e) =~= cut_text(x, s, e) + cut_text(b, s - m, e - m));
    } else if s >= m {
        assert(cut_text(xb, s, e) =~= cut_text(x, s, e) + cut_text(b, s - m, e - m));
    } else {
        assert(cut_text(xb, s, e) =~= cut_text(x, s, e) + cut_text(b, s - m, e - m));
    }
}

/// The text of the nodes from `k` on is the text of node `k` followed by
/// the text of the nodes after it.
pub proof fn lemma_units_skip_first(s: Seq<DomNode>, k: int)
    requires
        0 <= k < s.len(),
    ensures
        units_of(s.skip(k)) == text_units(s[k]) + units_of(s.skip(k + 1)),
{
    let t = s.skip(k);
    lemma_units_children_first(t);
    assert(t.skip(1) =~= s.skip(k + 1));
}

/// The text of a sequence of nodes is the text of its first `k` nodes
/// followed by the text of the rest.
pub proof fn lemma_units_cut(s: Seq<DomNode>, k: int)
    requires
        0 <= k <= s.len(),
    ensures
        units_of(s) == units_of(s.take(k)) + units_of(s.skip(k)),
{
    lemma_units_children_split(s, k);
}

/// The text of a sequence of nodes is as long as the text it holds.
pub proof fn lemma_units_of_len(s: Seq<DomNode>)
    ensures
        units_of(s).len() == nodes_len(s),
    decreases s.len(),
{
    if s.len() > 0 {
        let d = s.drop_last();
        lemma_units_of_len(d);
        lemma_units_cut(s, s.len() - 1);
        lemma_units_skip_first(s, s.len() - 1);
        assert(s.skip(s.len() as int) =~= Seq::<DomNode>::empty());
        assert(units_of(Seq::<DomNode>::empty()) =~= Seq::<char>::empty());
        assert(s.take(s.len() - 1) =~= d);
        lemma_units_len(s.last());
    }
}

/// Replacing the child at `k` by a node at the same position keeps the
/// handles of the children right.
pub proof fn lemma_children_ok_update(s: Seq<DomNode>, p: Seq<usize>, k: int, x: DomNode)
    requires
        children_ok(s, p),
        0 <= k < s.len(),
        handles_ok(x, p.push(k as usize)),
    ensures
        children_ok(s.update(k, x), p),
{
    lemma_children_ok_iff(s, p);
    lemma_children_ok_iff(s.update(k, x), p);
    assert forall|j: int| 0 <= j < s.update(k, x).len() implies #[trigger] handles_ok(
        s.update(k, x)[j],
        p.push(j as usize),
    ) by {
        if j != k {
            assert(handles_ok(s[j], p.push(j as usize)));
        }
    }
}

/// Take the text from position `s` up to position `e` out of the children
/// of `c`: children whose whole text lies in the range are removed, text
/// nodes that are partly in it are cut, and containers partly in it are cut
/// in the same way below.
pub fn delete_in(c: &mut ContainerNode, s: usize, e: usize)
    requires
        container_ok(*old(c)),
        s <= e,
        nodes_len(old(c).spec_children()) <= usize::MAX,
    ensures
        container_ok(*final(c)),
        final(c).spec_handle() == old(c).spec_handle(),
        final(c).spec_name() == old(c).spec_name(),
        final(c).spec_kind() == old(c).spec_kind(),
        final(c).spec_attrs() == old(c).spec_attrs(),
        units_of(final(c).spec_children()) == cut_text(
            units_of(old(c).spec_children()),
            s as int,
            e as int,
        ),
    decreases *old(c),
{
    let ghost orig = c.spec_children();
    let ghost p = c.spec_handle().unwrap();
    let ghost c0 = *c;
    let total = c.text_len();
    let mut i = c.children().len();
    let mut end_pos = total;
    proof {
        assert(orig.take(i as int) =~= orig);
        assert(orig.skip(i as int) =~= Seq::<DomNode>::empty());
        assert(units_of(Seq::<DomNode>::empty()) =~= Seq::<char>::empty());
        assert(cut_text(Seq::<char>::empty(), s - end_pos, e - end_pos) =~= Seq::<char>::empty());
        assert(c.spec_children().skip(i as int) =~= Seq::<DomNode>::empty());
    }
    while i > 0
        invariant
            i <= orig.len(),
            orig == c0.spec_children(),
            c0 == *old(c),
            container_ok(*c),
            c.spec_handle() == Some(p),
            c.spec_handle() == c0.spec_handle(),
            c.spec_name() == c0.spec_name(),
            c.spec_kind() == c0.spec_kind(),
            c.spec_attrs() == c0.spec_attrs(),
            c.spec_children().len() >= i,
            c.spec_children().take(i as int) == orig.take(i as int),
            end_pos == nodes_len(orig.take(i as int)),
            units_of(c.spec_children().skip(i as int)) == cut_text(
                units_of(orig.skip(i as int)),
                s - end_pos,
                e - end_pos,
            ),
            s <= e,
            nodes_len(orig) <= usize::MAX,
        decreases i,
    {
        let k = i - 1;
        let ghost cur = c.spec_children();
        let ghost x = text_units(orig[k as int]);
        let ghost r = units_of(cur.skip(i as int));
        proof {
            assert(cur[k as int] == cur.take(i as int)[k as int]);
            assert(orig[k as int] == orig.take(i as int)[k as int]);
            lemma_nodes_len_prefix_step(orig, k as int);
            lemma_nodes_len_prefix_le(orig, i as int);
            lemma_units_len(orig[k as int]);
            lemma_units_skip_first(orig, k as int);
            lemma_units_skip_first(cur, k as int);
            lemma_cut_concat(x, units_of(orig.skip(i as int)), s - (end_pos - x.len()), e - (end_pos - x.len()));
            assert(cur.take(k as int) =~= orig.take(k as int)) by {
                assert(cur.take(k as int) =~= cur.take(i as int).take(k as int));
                assert(orig.take(k as int) =~= orig.take(i as int).take(k as int));
            }
            lemma_children_ok_iff(cur, p);
            assert(handles_ok(cur[k as int], p.push(k as usize)));
        }
        let l = c.children()[k].text_len();
        let start_pos = end_pos - l;
        if e <= start_pos || s >= end_pos {
            proof {
                assert(cut_text(x, s - start_pos, e - start_pos) =~= x);
            }
        } else if s <= start_pos && end_pos <= e {
            c.remove_child(k);
            proof {
                let nw = c.spec_children();
                let rm = cur.remove(k as int);
                assert(rehandled_from(rm, nw, p, k as int));
                assert(nw.take(k as int) =~= orig.take(k as int)) by {
                    assert forall|j: int| 0 <= j < k implies nw[j] == orig[j] by {
                        assert(nw[j] == rm[j]);
                        assert(rm[j] == cur[j]);
                        assert(cur[j] == cur.take(i as int)[j]);
                        assert(orig[j] == orig.take(i as int)[j]);
                    }
                }
                assert(rm.skip(k as int) =~= cur.skip(i as int));
                assert forall|j: int| 0 <= j < nw.skip(k as int).len() implies text_units(
                    #[trigger] nw.skip(k as int)[j],
                ) == text_units(rm.skip(k as int)[j]) by {
                    lemma_same_content_units(rm[k + j], nw[k + j]);
                }
                lemma_units_children_same(nw.skip(k as int), rm.skip(k as int), nw.skip(k as int).len() as int);
                assert(cut_text(x, s - start_pos, e - start_pos) =~= Seq::<char>::empty());
                assert(Seq::<char>::empty() + cut_text(units_of(orig.skip(i as int)), s - end_pos, e - end_pos)
                    =~= cut_text(units_of(orig.skip(i as int)), s - end_pos, e - end_pos));
            }
        } else {
            let ls = if s > start_pos { s - start_pos } else { 0 };
            let le = if e < end_pos { e - start_pos } else { l };
            proof {
                assert(clamp(s - start_pos, x.len() as int) == ls);
                assert(clamp(e - start_pos, x.len() as int) == le);
            }
            match c.get_child_mut(k) {
                Some(DomNode::Text(t)) => {
                    let ghost d0 = t.spec_data();
                    let mut nd = copy_range(t.data(), 0, ls);
                    let rest = copy_range(t.data(), le, t.data().len());
                    push_chars(&mut nd, &rest);
                    t.set_data(nd);
                    proof {
                        assert(x == d0);
                        assert(t.spec_data() =~= cut_text(x, s - start_pos, e - start_pos));
                    }
                },
                Some(DomNode::Container(cc)) => {
                    proof {
                        lemma_container_child_decreases(c0, k as int);
                        assert(orig[k as int] == DomNode::Container(*cc));
                        assert(container_ok(*cc));
                        let cc0 = *cc;
                        assert(decreases_to!(orig[k as int] => cc0));
                        assert(decreases_to!(c0 => cc0));
                        assert(c0 == *old(c));
                    }
                    delete_in(cc, ls, le);
                },
                _ => {
                    proof {
                        assert(false);
                    }
                },
            }
            proof {
                let nw = c.spec_children();
                assert(nw.len() == cur.len());
                assert(nw.take(k as int) =~= orig.take(k as int)) by {
                    assert forall|j: int| 0 <= j < k implies nw[j] == orig[j] by {
                        assert(nw[j] == cur[j]);
                        assert(cur[j] == cur.take(i as int)[j]);
                        assert(orig[j] == orig.take(i as int)[j]);
                    }
                }
                assert(nw.skip(i as int) =~= cur.skip(i as int));
                lemma_units_skip_first(nw, k as int);
                assert(handles_ok(nw[k as int], p.push(k as usize)));
                lemma_children_ok_update(cur, p, k as int, nw[k as int]);
                assert(nw == cur.update(k as int, nw[k as int]));
            }
        }
        i = k;
        end_pos = start_pos;
    }
    proof {
        assert(orig.skip(0) =~= orig);
        assert(c.spec_children().skip(0) =~= c.spec_children());
        lemma_units_of_len(orig);
    }
}

/// Putting text in at a position inside the middle part of three texts put
/// together puts it in that part.
pub proof fn lemma_splice_mid(a: Seq<char>, x: Seq<char>, b: Seq<char>, s: int, ins: Seq<char>)
    requires
        a.len() <= s <= a.len() + x.len(),
    ensures
        spliced_text(a + x + b, s, ins) == a + spliced_text(x, s - a.len(), ins) + b,
{
    assert(spliced_text(a + x + b, s, ins) =~= a + spliced_text(x, s - a.len(), ins) + b);
}

/// Put `text` in at position `s` of the text of the children of `c`: into
/// the text node that ends or starts there (the earlier one first), into a
/// container that the position falls in or at the end of, and otherwise
/// into a new text node at that position.
pub fn insert_text_at(c: &mut ContainerNode, s: usize, text: &Vec<char>)
    requires
        container_ok(*old(c)),
        s <= nodes_len(old(c).spec_children()),
        nodes_len(old(c).spec_children()) + text@.len() <= usize::MAX,
    ensures
        container_ok(*final(c)),
        final(c).spec_handle() == old(c).spec_handle(),
        final(c).spec_name() == old(c).spec_name(),
        final(c).spec_kind() == old(c).spec_kind(),
        final(c).spec_attrs() == old(c).spec_attrs(),
        units_of(final(c).spec_children()) == spliced_text(
            units_of(old(c).spec_children()),
            s as int,
            text@,
        ),
    decreases *old(c),
{
    let ghost orig = c.spec_children();
    let ghost p = c.spec_handle().unwrap();
    let ghost c0 = *c;
    let n = c.children().len();
    let mut i: usize = 0;
    let mut pos: usize = 0;
    proof {
        assert(orig.take(0) =~= Seq::<DomNode>::empty());
        lemma_children_ok_iff(orig, p);
        lemma_units_of_len(orig);
    }
    while i < n
        invariant
            n == orig.len(),
            i <= n,
            orig == c0.spec_children(),
            c0 == *old(c),
            *c == c0,
            container_ok(c0),
            c0.spec_handle() == Some(p),
            pos == nodes_len(orig.take(i as int)),
            pos <= s,
            s <= nodes_len(orig),
            nodes_len(orig) + text@.len() <= usize::MAX,
            forall|j: int| 0 <= j < orig.len() ==> #[trigger] handles_ok(orig[j], p.push(j as usize)),
        decreases n - i,
    {
        let ghost x = text_units(orig[i as int]);
        proof {
            lemma_nodes_len_prefix_step(orig, i as int);
            lemma_nodes_len_prefix_le(orig, i + 1);
            lemma_units_len(orig[i as int]);
            lemma_units_cut(orig, i as int);
            lemma_units_skip_first(orig, i as int);
            lemma_units_of_len(orig.take(i as int));
            assert(handles_ok(orig[i as int], p.push(i as usize)));
        }
        let l = c.children()[i].text_len();
        if s <= pos + l {
            let off = s - pos;
            let is_leaf_item = match &c.children()[i] {
                DomNode::Text(_) | DomNode::Container(_) => false,
                _ => true,
            };
            if is_leaf_item {
                if s == pos {
                    if text.len() > 0 {
                        let node = DomNode::new_text(copy_range(text, 0, text.len()));
                        c.insert_child(i, node);
                        proof {
                            assert(text@.subrange(0, text@.len() as int) =~= text@);
                            let ins = orig.insert(i as int, node);
                            lemma_rehandled_units_of(ins, c.spec_children(), p, i as int);
                            lemma_units_cut(ins, i as int);
                            lemma_units_skip_first(ins, i as int);
                            assert(ins.take(i as int) =~= orig.take(i as int));
                            assert(ins.skip(i + 1) =~= orig.skip(i as int));
                            assert(spliced_text(units_of(orig), s as int, text@) =~= units_of(ins));
                        }
                    } else {
                        proof {
                            assert(spliced_text(units_of(orig), s as int, text@) =~= units_of(orig));
                        }
                    }
                    return;
                }
            } else {
                match c.get_child_mut(i) {
                    Some(DomNode::Text(t)) => {
                        let ghost d0 = t.spec_data();
                        let mut nd = copy_range(t.data(), 0, off);
                        push_chars(&mut nd, text);
                        let rest = copy_range(t.data(), off, t.data().len());
                        push_chars(&mut nd, &rest);
                        t.set_data(nd);
                        proof {
                            assert(x == d0);
                            assert(t.spec_data() =~= spliced_text(x, off as int, text@));
                        }
                    },
                    Some(DomNode::Container(cc)) => {
                        proof {
                            lemma_container_child_decreases(c0, i as int);
                            let cc0 = *cc;
                            assert(orig[i as int] == DomNode::Container(cc0));
                            assert(decreases_to!(orig[i as int] => cc0));
                            assert(decreases_to!(c0 => cc0));
                            assert(container_ok(cc0));
                        }
                        insert_text_at(cc, off, text);
                    },
                    _ => {
                        proof {
                            assert(false);
                        }
                    },
                }
                proof {
                    let nw = c.spec_children();
                    assert(nw.len() == orig.len());
                    assert(nw == orig.update(i as int, nw[i as int]));
                    assert(handles_ok(nw[i as int], p.push(i as usize)));
                    lemma_children_ok_update(orig, p, i as int, nw[i as int]);
                    lemma_units_cut(nw, i as int);
                    lemma_units_skip_first(nw, i as int);
                    assert(nw.take(i as int) =~= orig.take(i as int));
                    assert(nw.skip(i + 1) =~= orig.skip(i + 1));
                    lemma_splice_mid(units_of(orig.take(i as int)), x, units_of(orig.skip(i + 1)), s as int, text@);
                    assert(units_of(orig) == units_of(orig.take(i as int)) + x + units_of(orig.skip(i + 1)));
                }
                return;
            }
        }
        pos = pos + l;
        i = i + 1;
    }
    proof {
        assert(orig.take(n as int) =~= orig);
    }
    if text.len() > 0 {
        let node = DomNode::new_text(copy_range(text, 0, text.len()));
        c.append_child(node);
        proof {
            assert(text@.subrange(0, text@.len() as int) =~= text@);
            let nw = c.spec_children();
            lemma_units_cut(nw, n as int);
            lemma_units_skip_first(nw, n as int);
            assert(nw.take(n as int) =~= orig);
            assert(nw.skip(n + 1) =~= Seq::<DomNode>::empty());
            assert(units_of(Seq::<DomNode>::empty()) =~= Seq::<char>::empty());
            lemma_same_content_units(node, nw[n as int]);
            assert(spliced_text(units_of(orig), s as int, text@) =~= units_of(orig) + text@);
        }
    } else {
        proof {
            assert(spliced_text(units_of(orig), s as int, text@) =~= units_of(orig));
        }
    }
}

/// No text node among `s` is empty, and no two text nodes stand side by
/// side.
pub open spec fn texts_tidy(s: Seq<DomNode>) -> bool {
    &&& forall|j: int| 0 <= j < s.len() && #[trigger] s[j] is Text ==> s[j]->Text_0.spec_data().len() > 0
    &&& forall|j: int| 0 < j < s.len() && #[trigger] s[j] is Text ==> !(s[j - 1] is Text)
}

/// In every container of the tree under `n` no text node is empty and no two
/// text nodes stand side by side.
pub open spec fn tidy(n: DomNode) -> bool
    decreases n, 1int,
{
    match n {
        DomNode::Container(c) => {
            proof {
                crate::tree::lemma_decreases_children(n);
            }
            texts_tidy(c.spec_children()) && all_tidy(c.spec_children())
        },
        _ => true,
    }
}

/// `tidy` holds of every node of `s`.
pub open spec fn all_tidy(s: Seq<DomNode>) -> bool
    decreases s, 0int,
{
    if s.len() == 0 {
        true
    } else {
        all_tidy(s.drop_last()) && tidy(s.last())
    }
}

/// `all_tidy` holds exactly when `tidy` holds of every node.
pub proof fn lemma_all_tidy_iff(s: Seq<DomNode>)
    ensures
        all_tidy(s) <==> (forall|i: int| 0 <= i < s.len() ==> #[trigger] tidy(s[i])),
    decreases s.len(),
{
    if s.len() > 0 {
        lemma_all_tidy_iff(s.drop_last());
        if all_tidy(s) {
            assert forall|i: int| 0 <= i < s.len() implies #[trigger] tidy(s[i]) by {
                if i < s.len() - 1 {
                    assert(s.drop_last()[i] == s[i]);
                }
            }
        }
        if forall|i: int| 0 <= i < s.len() ==> #[trigger] tidy(s[i]) {
            assert forall|i: int| 0 <= i < s.drop_last().len() implies #[trigger] tidy(s.drop_last()[i]) by {
                assert(s.drop_last()[i] == s[i]);
                assert(tidy(s[i]));
            }
            assert(tidy(s[s.len() - 1]));
        }
    }
}

/// Nodes with the same content are tidy alike.
pub proof fn lemma_same_content_tidy(a: DomNode, b: DomNode)
    requires
        same_content(a, b),
    ensures
        tidy(a) <==> tidy(b),
    decreases a,
{
    match (a, b) {
        (DomNode::Container(x), DomNode::Container(y)) => {
            let xs = x.spec_children();
            let ys = y.spec_children();
            crate::tree::lemma_same_children_iff(xs, ys);
            lemma_all_tidy_iff(xs);
            lemma_all_tidy_iff(ys);
            assert forall|i: int| 0 <= i < xs.len() implies tidy(#[trigger] xs[i]) == tidy(ys[i]) && (xs[i] is Text <==> ys[i] is Text) && (xs[i] is Text ==> xs[i]->Text_0.spec_data() == ys[i]->Text_0.spec_data()) by {
                lemma_container_child_decreases(x, i);
                assert(same_content(xs[i], ys[i]));
                lemma_same_content_tidy(xs[i], ys[i]);
            }
            if all_tidy(xs) {
                assert forall|i: int| 0 <= i < ys.len() implies #[trigger] tidy(ys[i]) by {
                    assert(tidy(xs[i]));
                }
            }
            if all_tidy(ys) {
                assert forall|i: int| 0 <= i < xs.len() implies #[trigger] tidy(xs[i]) by {
                    assert(tidy(xs[i]) == tidy(ys[i]));
                }
            }
            if texts_tidy(xs) {
                assert forall|j: int| 0 <= j < ys.len() && #[trigger] ys[j] is Text implies ys[j]->Text_0.spec_data().len() > 0 by {
                    assert(xs[j] is Text);
                }
                assert forall|j: int| 0 < j < ys.len() && #[trigger] ys[j] is Text implies !(ys[j - 1] is Text) by {
                    assert(xs[j] is Text);
                    assert(xs[j - 1] is Text <==> ys[j - 1] is Text);
                }
            }
            if texts_tidy(ys) {
                assert forall|j: int| 0 <= j < xs.len() && #[trigger] xs[j] is Text implies xs[j]->Text_0.spec_data().len() > 0 by {
                    assert(ys[j] is Text);
                }
                assert forall|j: int| 0 < j < xs.len() && #[trigger] xs[j] is Text implies !(xs[j - 1] is Text) by {
                    assert(ys[j] is Text);
                    assert(xs[j - 1] is Text <==> ys[j - 1] is Text);
                }
            }
        },
        _ => {},
    }
}

/// Removing an empty text node keeps the text, the tidy prefix before it and
/// the tidy trees.
proof fn lemma_tidy_after_remove(cur: Seq<DomNode>, nw: Seq<DomNode>, p: Seq<usize>, i: int)
    requires
        0 <= i < cur.len(),
        rehandled_from(cur.remove(i), nw, p, i),
        cur[i] is Text,
        cur[i]->Text_0.spec_data().len() == 0,
        texts_tidy(cur.take(i)),
        forall|j: int| 0 <= j < cur.len() ==> #[trigger] tidy(cur[j]),
    ensures
        units_of(nw) == units_of(cur),
        texts_tidy(nw.take(i)),
        forall|j: int| 0 <= j < nw.len() ==> #[trigger] tidy(nw[j]),
{
    let rm = cur.remove(i);
    lemma_rehandled_units_of(rm, nw, p, i);
    lemma_units_cut(cur, i);
    lemma_units_skip_first(cur, i);
    lemma_units_cut(rm, i);
    assert(rm.take(i) =~= cur.take(i));
    assert(rm.skip(i) =~= cur.skip(i + 1));
    assert(text_units(cur[i]) =~= Seq::<char>::empty());
    assert(units_of(cur) =~= units_of(rm));
    assert(nw.take(i) =~= cur.take(i)) by {
        assert forall|j: int| 0 <= j < i implies nw[j] == cur[j] by {
            assert(nw[j] == rm[j]);
        }
    }
    assert forall|j: int| 0 <= j < nw.len() implies #[trigger] tidy(nw[j]) by {
        if j < i {
            assert(nw[j] == rm[j]);
        } else {
            assert(tidy(cur[j + 1]));
            assert(same_content(rm[j], nw[j]));
            lemma_same_content_tidy(rm[j], nw[j]);
        }
    }
}

/// Merging the text node at `i` into the one before it keeps the text, the
/// tidy prefix up to it and the tidy trees.
proof fn lemma_tidy_after_merge(cur: Seq<DomNode>, nw: Seq<DomNode>, p: Seq<usize>, i: int)
    requires
        0 < i < cur.len(),
        crate::dom::texts_merged_at(cur, nw, p, i - 1),
        cur[i] is Text,
        cur[i - 1] is Text,
        texts_tidy(cur.take(i)),
        forall|j: int| 0 <= j < cur.len() ==> #[trigger] tidy(cur[j]),
    ensures
        units_of(nw) == units_of(cur),
        i <= nw.len(),
        texts_tidy(nw.take(i)),
        forall|j: int| 0 <= j < nw.len() ==> #[trigger] tidy(nw[j]),
{
    let k = i - 1;
    assert(0 <= k && k + 1 < cur.len() && cur[k] is Text && cur[k + 1] is Text);
    assert(nw.len() == cur.len() - 1);
    lemma_units_cut(cur, k);
    lemma_units_skip_first(cur, k);
    lemma_units_skip_first(cur, i);
    lemma_units_cut(nw, k);
    lemma_units_skip_first(nw, k);
    assert(nw.take(k) =~= cur.take(k));
    assert forall|j: int| 0 <= j < nw.skip(i).len() implies text_units(#[trigger] nw.skip(i)[j]) == text_units(
        cur.skip(i + 1)[j],
    ) by {
        let jj = i + j;
        assert(k < jj < nw.len());
        assert(same_content(cur[jj + 1], nw[jj]));
        assert(nw.skip(i)[j] == nw[jj]);
        assert(cur.skip(i + 1)[j] == cur[jj + 1]);
        lemma_same_content_units(cur[jj + 1], nw[jj]);
    }
    lemma_units_children_same(nw.skip(i), cur.skip(i + 1), nw.skip(i).len() as int);
    assert(units_of(cur) =~= units_of(nw));
    assert(texts_tidy(nw.take(i))) by {
        assert forall|j: int| 0 <= j < i && #[trigger] nw.take(i)[j] is Text implies nw.take(i)[j]->Text_0.spec_data().len() > 0 by {
            if j < k {
                assert(cur.take(i)[j] == nw.take(i)[j]);
            } else {
                assert(cur.take(i)[k] == cur[k]);
            }
        }
        assert forall|j: int| 0 < j < i && #[trigger] nw.take(i)[j] is Text implies !(nw.take(i)[j - 1] is Text) by {
            assert(cur.take(i)[j - 1] == nw.take(i)[j - 1]);
            if j < k {
                assert(cur.take(i)[j] == nw.take(i)[j]);
            } else {
                assert(cur.take(i)[j] is Text);
            }
        }
    }
    assert forall|j: int| 0 <= j < nw.len() implies #[trigger] tidy(nw[j]) by {
        if j < k {
            assert(nw[j] == cur[j]);
        } else if j > k {
            assert(tidy(cur[j + 1]));
            assert(same_content(cur[j + 1], nw[j]));
            lemma_same_content_tidy(cur[j + 1], nw[j]);
        }
    }
}

/// A node that is not an empty text node, and not a text node after a text
/// node, extends a tidy prefix.
proof fn lemma_tidy_step(cur: Seq<DomNode>, i: int)
    requires
        0 <= i < cur.len(),
        texts_tidy(cur.take(i)),
        cur[i] is Text ==> cur[i]->Text_0.spec_data().len() > 0,
        cur[i] is Text && i > 0 ==> !(cur[i - 1] is Text),
    ensures
        texts_tidy(cur.take(i + 1)),
{
    let t = cur.take(i + 1);
    assert forall|j: int| 0 <= j < i + 1 && #[trigger] t[j] is Text implies t[j]->Text_0.spec_data().len() > 0 by {
        if j < i {
            assert(cur.take(i)[j] == t[j]);
        }
    }
    assert forall|j: int| 0 < j < i + 1 && #[trigger] t[j] is Text implies !(t[j - 1] is Text) by {
        if j < i {
            assert(cur.take(i)[j] == t[j]);
            assert(cur.take(i)[j - 1] == t[j - 1]);
        }
    }
}

/// Remove the empty text nodes under `c` and merge the text nodes that stand
/// side by side, keeping the text.
pub fn tidy_text_nodes(c: &mut ContainerNode)
    requires
        container_ok(*old(c)),
    ensures
        container_ok(*final(c)),
        final(c).spec_handle() == old(c).spec_handle(),
        final(c).spec_name() == old(c).spec_name(),
        final(c).spec_kind() == old(c).spec_kind(),
        final(c).spec_attrs() == old(c).spec_attrs(),
        units_of(final(c).spec_children()) == units_of(old(c).spec_children()),
        tidy(DomNode::Container(*final(c))),
    decreases *old(c),
{
    let ghost c0 = *c;
    let ghost orig = c.spec_children();
    let ghost p = c.spec_handle().unwrap();
    let n = c.children().len();
    let mut i: usize = 0;
    while i < n
        invariant
            c0 == *old(c),
            orig == c0.spec_children(),
            n == orig.len(),
            container_ok(*c),
            c.spec_handle() == Some(p),
            c.spec_handle() == c0.spec_handle(),
            c.spec_name() == c0.spec_name(),
            c.spec_kind() == c0.spec_kind(),
            c.spec_attrs() == c0.spec_attrs(),
            i <= n,
            c.spec_children().len() == n,
            units_of(c.spec_children()) == units_of(orig),
            forall|j: int| 0 <= j < i ==> #[trigger] tidy(c.spec_children()[j]),
            forall|j: int| i <= j < n ==> #[trigger] c.spec_children()[j] == orig[j],
        decreases n - i,
    {
        let ghost cur = c.spec_children();
        proof {
            lemma_children_ok_iff(cur, p);
            assert(handles_ok(cur[i as int], p.push(i as usize)));
        }
        let is_container = match &c.children()[i] {
            DomNode::Container(_) => true,
            _ => false,
        };
        if is_container {
            match c.get_child_mut(i) {
                Some(DomNode::Container(cc)) => {
                    proof {
                        let cc0 = *cc;
                        assert(orig[i as int] == DomNode::Container(cc0));
                        lemma_container_child_decreases(c0, i as int);
                        assert(decreases_to!(orig[i as int] => cc0));
                        assert(decreases_to!(c0 => cc0));
                        assert(container_ok(cc0));
                    }
                    tidy_text_nodes(cc);
                },
                _ => {},
            }
            proof {
                let nw = c.spec_children();
                assert(nw == cur.update(i as int, nw[i as int]));
                assert(handles_ok(nw[i as int], p.push(i as usize)));
                lemma_children_ok_update(cur, p, i as int, nw[i as int]);
                lemma_units_cut(nw, i as int);
                lemma_units_skip_first(nw, i as int);
                lemma_units_cut(cur, i as int);
                lemma_units_skip_first(cur, i as int);
                assert(nw.take(i as int) =~= cur.take(i as int));
                assert(nw.skip(i + 1) =~= cur.skip(i + 1));
            }
        }
        i = i + 1;
    }
    let mut i: usize = 0;
    proof {
        assert(c.spec_children().take(0) =~= Seq::<DomNode>::empty());
    }
    while i < c.children().len()
        invariant
            container_ok(*c),
            c.spec_handle() == Some(p),
            c.spec_handle() == c0.spec_handle(),
            c.spec_name() == c0.spec_name(),
            c.spec_kind() == c0.spec_kind(),
            c.spec_attrs() == c0.spec_attrs(),
            i <= c.spec_children().len(),
            units_of(c.spec_children()) == units_of(orig),
            texts_tidy(c.spec_children().take(i as int)),
            forall|j: int| 0 <= j < c.spec_children().len() ==> #[trigger] tidy(c.spec_children()[j]),
        decreases c.spec_children().len() - i,
    {
        let ghost cur = c.spec_children();
        let (is_text, is_empty_text) = match &c.children()[i] {
            DomNode::Text(t) => (true, t.data().len() == 0),
            _ => (false, false),
        };
        let prev_text = i > 0 && match &c.children()[i - 1] {
            DomNode::Text(_) => true,
            _ => false,
        };
        if is_empty_text {
            c.remove_child(i);
            proof {
                lemma_tidy_after_remove(cur, c.spec_children(), p, i as int);
            }
        } else if is_text && prev_text {
            crate::dom::merge_if_adjacent_text_nodes(c, i - 1);
            proof {
                lemma_tidy_after_merge(cur, c.spec_children(), p, i as int);
                lemma_children_ok_iff(c.spec_children(), p);
            }
        } else {
            proof {
                lemma_tidy_step(cur, i as int);
            }
            i = i + 1;
        }
    }
    proof {
        let s = c.spec_children();
        assert(s.take(i as int) =~= s);
        lemma_all_tidy_iff(s);
    }
}

/// Children given the handles of their positions from `from` on hold the
/// same text.
pub proof fn lemma_rehandled_units_of(old: Seq<DomNode>, new: Seq<DomNode>, p: Seq<usize>, from: int)
    requires
        rehandled_from(old, new, p, from),
        0 <= from,
    ensures
        units_of(new) == units_of(old),
{
    crate::tree::lemma_rehandled_units(old, new, p, from);
}

impl Dom {
    /// Replace the text from position `start` up to position `end` with
    /// `new_text`. Nodes whose whole text lies in the range are removed and
    /// text nodes partly in it are cut; the new text goes into the text node
    /// that ends or starts at `start` (the earlier one first), or into a new
    /// text node there. Afterwards no text node is empty and no two text
    /// nodes stand side by side.
    pub fn replace_text_in(&mut self, new_text: Vec<char>, start: usize, end: usize)
        requires
            old(self).wf(),
            start <= end <= node_len(old(self).spec_document()),
            node_len(old(self).spec_document()) <= usize::MAX,
            node_len(old(self).spec_document()) - (end - start) + new_text@.len() <= usize::MAX,
        ensures
            final(self).wf(),
            text_units(final(self).spec_document()) == text_units(old(self).spec_document()).take(
                start as int,
            ) + new_text@ + text_units(old(self).spec_document()).skip(end as int),
            tidy(final(self).spec_document()),
    {
        let ghost t0 = text_units(self.spec_document());
        let doc = self.document_mut();
        proof {
            lemma_units_of_len(doc.spec_children());
        }
        delete_in(doc, start, end);
        proof {
            lemma_units_of_len(doc.spec_children());
            assert(units_of(doc.spec_children()) =~= t0.take(start as int) + t0.skip(end as int));
        }
        insert_text_at(doc, start, &new_text);
        tidy_text_nodes(doc);
        proof {
            assert(units_of(doc.spec_children()) =~= t0.take(start as int) + new_text@ + t0.skip(end as int));
        }
    }
}

} // verus!

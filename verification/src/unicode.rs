use vstd::prelude::*;

use crate::leaf_nodes::{is_whitespace, spec_is_whitespace};

verus! {

/// The encoding in which offsets into a text are counted.
#[derive(Clone, Copy, Debug, PartialEq, Eq, Structural)]
pub enum Encoding {
    Utf8,
    Utf16,
    Utf32,
}

/// How many code units of `e` the character `c` takes.
pub open spec fn unit_len(c: char, e: Encoding) -> nat {
    match e {
        Encoding::Utf8 => if (c as u32) < 0x80 {
            1
        } else if (c as u32) < 0x800 {
            2
        } else if (c as u32) < 0x10000 {
            3
        } else {
            4
        },
        Encoding::Utf16 => if (c as u32) < 0x10000 {
            1
        } else {
            2
        },
        Encoding::Utf32 => 1,
    }
}

/// How many code units of `e` the characters `s` take.
pub open spec fn units(s: Seq<char>, e: Encoding) -> nat
    decreases s.len(),
{
    if s.len() == 0 {
        0
    } else {
        units(s.drop_last(), e) + unit_len(s.last(), e)
    }
}

/// The first character index from `k` on at which at least `pos` code units
/// lie before it (the length of `s` if there is none).
pub open spec fn boundary_from(s: Seq<char>, e: Encoding, pos: nat, k: nat) -> nat
    decreases s.len() - k,
{
    if k >= s.len() || units(s.take(k as int), e) >= pos {
        k
    } else {
        boundary_from(s, e, pos, k + 1)
    }
}

/// The character index of the code unit offset `pos`, rounded up to the
/// next character boundary.
pub open spec fn char_index(s: Seq<char>, e: Encoding, pos: nat) -> nat {
    boundary_from(s, e, pos, 0)
}

/// The characters of a list of clusters, one after the other.
pub open spec fn concat_all(gs: Seq<Seq<char>>) -> Seq<char>
    decreases gs.len(),
{
    if gs.len() == 0 {
        Seq::empty()
    } else {
        concat_all(gs.drop_last()) + gs.last()
    }
}

/// The extended grapheme clusters of `s`, as unicode-segmentation splits
/// them.
pub uninterp spec fn grapheme_split(s: Seq<char>) -> Seq<Seq<char>>;

/// `UnicodeSegmentation::grapheme_indices(.., true)` of unicode-segmentation
/// on the text, each cluster taken as its characters. The clusters are named
/// by `grapheme_split`; as the crate documents, they split the text: they
/// follow one another in order, together they make up the whole text, and
/// none is empty.
#[verifier::external_body]
fn graphemes(s: &Vec<char>) -> (r: Vec<Vec<char>>)
    ensures
        cluster_views(r@) == grapheme_split(s@),
        concat_all(cluster_views(r@)) == s@,
        forall|i: int| 0 <= i < r@.len() ==> (#[trigger] r@[i])@.len() > 0,
{
    let text: String = s.iter().collect();
    unicode_segmentation::UnicodeSegmentation::grapheme_indices(text.as_str(), true).map(|(_, g)| g.chars().collect()).collect()
}

/// The clusters, each taken as its characters.
pub open spec fn cluster_views(r: Seq<Vec<char>>) -> Seq<Seq<char>> {
    r.map_values(|g: Vec<char>| g@)
}

/// The facts that the cluster split gives: the clusters make up the text and
/// none is empty.
pub open spec fn split_facts(s: Seq<char>) -> bool {
    &&& concat_all(grapheme_split(s)) == s
    &&& forall|i: int| 0 <= i < grapheme_split(s).len() ==> (#[trigger] grapheme_split(s)[i]).len() > 0
}

/// The clusters of `s`, with the facts of `split_facts`.
fn graphemes_checked(s: &Vec<char>) -> (r: Vec<Vec<char>>)
    ensures
        r@.len() == grapheme_split(s@).len(),
        forall|i: int| 0 <= i < r@.len() ==> (#[trigger] r@[i])@ == grapheme_split(s@)[i],
        split_facts(s@),
{
    let r = graphemes(s);
    assert forall|i: int| 0 <= i < grapheme_split(s@).len() implies (#[trigger] grapheme_split(s@)[i]).len() > 0 by {
        assert(cluster_views(r@)[i] == r@[i]@);
    }
    assert forall|i: int| 0 <= i < r@.len() implies (#[trigger] r@[i])@ == grapheme_split(s@)[i] by {
        assert(cluster_views(r@)[i] == r@[i]@);
    }
    r
}

/// The first cluster of `gs`, the first starting at character `off`, that
/// ends at character `k`.
pub open spec fn cluster_ending_at(gs: Seq<Seq<char>>, k: nat, off: nat) -> Option<Seq<char>>
    decreases gs.len(),
{
    if gs.len() == 0 {
        None
    } else if off + gs[0].len() == k {
        Some(gs[0])
    } else {
        cluster_ending_at(gs.skip(1), k, off + gs[0].len())
    }
}

/// The first cluster of `gs`, the first starting at character `off`, that
/// starts at character `k`.
pub open spec fn cluster_starting_at(gs: Seq<Seq<char>>, k: nat, off: nat) -> Option<Seq<char>>
    decreases gs.len(),
{
    if gs.len() == 0 {
        None
    } else if off == k {
        Some(gs[0])
    } else {
        cluster_starting_at(gs.skip(1), k, off + gs[0].len())
    }
}

/// Every character of `g` is white space.
pub open spec fn all_whitespace(g: Seq<char>) -> bool {
    forall|i: int| 0 <= i < g.len() ==> spec_is_whitespace(#[trigger] g[i])
}

/// Going back cluster by cluster from character `k`, the character index
/// where a cluster of white space, or the start of the text, is reached.
pub open spec fn walk_back(gs: Seq<Seq<char>>, k: nat) -> nat
    decreases k,
{
    match cluster_ending_at(gs, k, 0) {
        None => k,
        Some(g) => if all_whitespace(g) || g.len() == 0 || g.len() > k {
            k
        } else {
            walk_back(gs, (k - g.len()) as nat)
        },
    }
}

/// Going forward cluster by cluster from character `k`, the character index
/// where a cluster of white space, or the end of the text, is reached.
pub open spec fn walk_forward(gs: Seq<Seq<char>>, total: nat, k: nat) -> nat
    decreases total - k,
{
    match cluster_starting_at(gs, k, 0) {
        None => k,
        Some(g) => if all_whitespace(g) || g.len() == 0 || k + g.len() > total {
            k
        } else {
            walk_forward(gs, total, k + g.len())
        },
    }
}

proof fn lemma_units_prefix_step(s: Seq<char>, e: Encoding, k: int)
    requires
        0 <= k < s.len(),
    ensures
        units(s.take(k + 1), e) == units(s.take(k), e) + unit_len(s[k], e),
        unit_len(s[k], e) >= 1,
{
    assert(s.take(k + 1).drop_last() =~= s.take(k));
}

proof fn lemma_units_monotonic(s: Seq<char>, e: Encoding, i: int, j: int)
    requires
        0 <= i < j <= s.len(),
    ensures
        units(s.take(i), e) < units(s.take(j), e),
    decreases j - i,
{
    lemma_units_prefix_step(s, e, j - 1);
    if i < j - 1 {
        lemma_units_monotonic(s, e, i, j - 1);
    }
}

proof fn lemma_boundary_exact(s: Seq<char>, e: Encoding, j: int, k: int)
    requires
        0 <= k <= j <= s.len(),
    ensures
        boundary_from(s, e, units(s.take(j), e), k as nat) == j,
    decreases j - k,
{
    if k < j {
        lemma_units_monotonic(s, e, k, j);
        lemma_boundary_exact(s, e, j, k + 1);
    }
}

proof fn lemma_boundary_range(s: Seq<char>, e: Encoding, pos: nat, k: nat)
    requires
        k <= s.len(),
    ensures
        k <= boundary_from(s, e, pos, k) <= s.len(),
    decreases s.len() - k,
{
    if !(k >= s.len() || units(s.take(k as int), e) >= pos) {
        lemma_boundary_range(s, e, pos, k + 1);
    }
}

proof fn lemma_concat_prefix(gs: Seq<Seq<char>>, i: int)
    requires
        0 <= i < gs.len(),
    ensures
        concat_all(gs.take(i + 1)) == concat_all(gs.take(i)) + gs[i],
{
    assert(gs.take(i + 1).drop_last() =~= gs.take(i));
}

proof fn lemma_concat_split(gs: Seq<Seq<char>>, i: int)
    requires
        0 <= i <= gs.len(),
    ensures
        concat_all(gs) == concat_all(gs.take(i)) + concat_all(gs.skip(i)),
    decreases gs.len() - i,
{
    if i == gs.len() {
        assert(gs.take(i) =~= gs);
        assert(gs.skip(i) =~= Seq::<Seq<char>>::empty());
        assert(concat_all(gs.take(i)) + Seq::<char>::empty() =~= concat_all(gs.take(i)));
    } else {
        lemma_concat_split(gs, i + 1);
        lemma_concat_prefix(gs, i);
        let rest = gs.skip(i);
        assert(rest.skip(1) =~= gs.skip(i + 1));
        lemma_concat_first(rest);
        assert(concat_all(gs.take(i)) + gs[i] + concat_all(gs.skip(i + 1)) =~= concat_all(gs.take(i)) + (gs[i] + concat_all(gs.skip(i + 1))));
    }
}

proof fn lemma_concat_first(gs: Seq<Seq<char>>)
    requires
        gs.len() > 0,
    ensures
        concat_all(gs) == gs[0] + concat_all(gs.skip(1)),
    decreases gs.len(),
{
    if gs.len() == 1 {
        assert(gs.drop_last() =~= Seq::<Seq<char>>::empty());
        assert(gs.skip(1) =~= Seq::<Seq<char>>::empty());
        assert(gs[0] + Seq::<char>::empty() =~= gs[0]);
    } else {
        lemma_concat_first(gs.drop_last());
        assert(gs.drop_last().skip(1) =~= gs.skip(1).drop_last());
        assert(gs.skip(1).last() == gs.last());
        assert(gs[0] + concat_all(gs.skip(1).drop_last()) + gs.last() =~= gs[0] + (concat_all(gs.skip(1).drop_last()) + gs.last()));
    }
}

proof fn lemma_cluster_ending(gs: Seq<Seq<char>>, k: nat, off: nat, rest: Seq<char>)
    requires
        concat_all(gs) == rest,
        forall|i: int| 0 <= i < gs.len() ==> (#[trigger] gs[i]).len() > 0,
        cluster_ending_at(gs, k, off) matches Some(g),
    ensures
        cluster_ending_at(gs, k, off) matches Some(g) && g.len() > 0 && off + g.len() <= k <= off + rest.len()
            && rest.subrange(k - off - g.len(), k - off) == g,
    decreases gs.len(),
{
    lemma_concat_first(gs);
    if off + gs[0].len() == k {
        assert(rest.subrange(0, gs[0].len() as int) =~= gs[0]);
    } else {
        let tail = gs.skip(1);
        assert forall|i: int| 0 <= i < tail.len() implies (#[trigger] tail[i]).len() > 0 by {
            assert(tail[i] == gs[i + 1]);
        }
        lemma_cluster_ending(tail, k, off + gs[0].len(), concat_all(tail));
        let g = cluster_ending_at(gs, k, off)->Some_0;
        let d = gs[0].len() as int;
        assert(rest.subrange(k - off - g.len(), k - off) =~= concat_all(tail).subrange(k - off - d - g.len(), k - off - d));
    }
}

proof fn lemma_cluster_starting(gs: Seq<Seq<char>>, k: nat, off: nat, rest: Seq<char>)
    requires
        concat_all(gs) == rest,
        forall|i: int| 0 <= i < gs.len() ==> (#[trigger] gs[i]).len() > 0,
        cluster_starting_at(gs, k, off) matches Some(g),
    ensures
        cluster_starting_at(gs, k, off) matches Some(g) && g.len() > 0 && off <= k && k + g.len() <= off + rest.len()
            && rest.subrange(k - off, k - off + g.len()) == g,
    decreases gs.len(),
{
    lemma_concat_first(gs);
    if off == k {
        assert(rest.subrange(0, gs[0].len() as int) =~= gs[0]);
    } else {
        let tail = gs.skip(1);
        assert forall|i: int| 0 <= i < tail.len() implies (#[trigger] tail[i]).len() > 0 by {
            assert(tail[i] == gs[i + 1]);
        }
        lemma_cluster_starting(tail, k, off + gs[0].len(), concat_all(tail));
        let g = cluster_starting_at(gs, k, off)->Some_0;
        let d = gs[0].len() as int;
        assert(rest.subrange(k - off, k - off + g.len()) =~= concat_all(tail).subrange(k - off - d, k - off - d + g.len()));
    }
}

proof fn lemma_units_split(s: Seq<char>, e: Encoding, a: int, b: int)
    requires
        0 <= a <= b <= s.len(),
    ensures
        units(s.take(b), e) == units(s.take(a), e) + units(s.subrange(a, b), e),
    decreases b - a,
{
    if a == b {
        assert(s.subrange(a, b) =~= Seq::<char>::empty());
    } else {
        lemma_units_split(s, e, a, b - 1);
        lemma_units_prefix_step(s, e, b - 1);
        assert(s.subrange(a, b).drop_last() =~= s.subrange(a, b - 1));
    }
}

proof fn lemma_back_step(s: Seq<char>, e: Encoding, k0: int, kc: int, g: Seq<char>)
    requires
        split_facts(s),
        0 <= kc <= k0 <= s.len(),
        cluster_ending_at(grapheme_split(s), kc as nat, 0) == Some(g),
    ensures
        g.len() > 0,
        g.len() <= kc,
        units(s.take(kc), e) == units(s.take(kc - g.len()), e) + units(g, e),
        units(s.subrange(kc - g.len(), k0), e) == units(g, e) + units(s.subrange(kc, k0), e),
{
    lemma_cluster_ending(grapheme_split(s), kc as nat, 0, s);
    let a = kc - g.len();
    assert(s.subrange(a, kc) == g);
    assert(s.take(kc).take(a) =~= s.take(a));
    assert(s.take(kc).subrange(a, kc) =~= g);
    lemma_units_split(s.take(kc), e, a, kc);
    assert(s.take(kc).take(kc) =~= s.take(kc));
    let t = s.subrange(a, k0);
    lemma_units_split(t, e, g.len() as int, k0 - a);
    assert(t.take(g.len() as int) =~= g);
    assert(t.subrange(g.len() as int, k0 - a) =~= s.subrange(kc, k0));
    assert(t.take(k0 - a) =~= t);
}

proof fn lemma_forward_step(s: Seq<char>, e: Encoding, k0: int, kc: int, g: Seq<char>)
    requires
        split_facts(s),
        0 <= k0 <= kc <= s.len(),
        cluster_starting_at(grapheme_split(s), kc as nat, 0) == Some(g),
    ensures
        g.len() > 0,
        kc + g.len() <= s.len(),
        units(s.take(kc + g.len()), e) == units(s.take(kc), e) + units(g, e),
        units(s.subrange(k0, kc + g.len()), e) == units(s.subrange(k0, kc), e) + units(g, e),
        units(s.take(kc + g.len()), e) <= units(s, e),
{
    lemma_cluster_starting(grapheme_split(s), kc as nat, 0, s);
    let kn = kc + g.len();
    assert(s.subrange(kc, kn) == g);
    lemma_units_split(s, e, kc, kn);
    lemma_units_split(s, e, kn, s.len() as int);
    assert(s.take(s.len() as int) =~= s);
    let t = s.subrange(k0, kn);
    lemma_units_split(t, e, kc - k0, kn - k0);
    assert(t.take(kc - k0) =~= s.subrange(k0, kc));
    assert(t.subrange(kc - k0, kn - k0) =~= g);
    assert(t.take(kn - k0) =~= t);
}

/// A text with the encoding its offsets are counted in.
#[derive(Debug)]
pub struct EncodedText {
    chars: Vec<char>,
    encoding: Encoding,
}

/// Text as characters, with offsets counted in code units.
pub trait UnicodeStr {
    /// The characters.
    spec fn spec_chars(&self) -> Seq<char>;

    /// The encoding offsets are counted in.
    spec fn spec_encoding(&self) -> Encoding;

    /// The characters.
    fn chars(&self) -> (c: Vec<char>)
        ensures
            c@ == self.spec_chars(),
    ;

    /// How many code units `c` takes.
    fn char_len(&self, c: &char) -> (n: usize)
        ensures
            n == unit_len(*c, self.spec_encoding()),
    ;

    /// The character at character index `idx`.
    fn char_at(&self, idx: usize) -> (c: char)
        requires
            idx < self.spec_chars().len(),
        ensures
            c == self.spec_chars()[idx as int],
    ;
}

/// Text that can be changed.
pub trait UnicodeString: UnicodeStr {
    /// Insert `s` at character index `idx`.
    fn insert(&mut self, idx: usize, s: &Vec<char>)
        requires
            idx <= old(self).spec_chars().len(),
        ensures
            final(self).spec_chars() == old(self).spec_chars().take(idx as int) + s@ + old(self).spec_chars().skip(idx as int),
            final(self).spec_encoding() == old(self).spec_encoding(),
    ;

    /// Take out the character at character index `idx`.
    fn remove_at(&mut self, idx: usize) -> (c: char)
        requires
            idx < old(self).spec_chars().len(),
        ensures
            c == old(self).spec_chars()[idx as int],
            final(self).spec_chars() == old(self).spec_chars().remove(idx as int),
            final(self).spec_encoding() == old(self).spec_encoding(),
    ;

    /// Take out the first character, if there is one.
    fn pop_first(&mut self) -> (c: Option<char>)
        ensures
            old(self).spec_chars().len() == 0 ==> c is None && final(self).spec_chars() == old(self).spec_chars(),
            old(self).spec_chars().len() > 0 ==> c == Some(old(self).spec_chars()[0]) && final(self).spec_chars() == old(self).spec_chars().skip(1),
            final(self).spec_encoding() == old(self).spec_encoding(),
    ;

    /// Take out the last character, if there is one.
    fn pop_last(&mut self) -> (c: Option<char>)
        ensures
            old(self).spec_chars().len() == 0 ==> c is None && final(self).spec_chars() == old(self).spec_chars(),
            old(self).spec_chars().len() > 0 ==> c == Some(old(self).spec_chars().last()) && final(self).spec_chars() == old(self).spec_chars().drop_last(),
            final(self).spec_encoding() == old(self).spec_encoding(),
    ;
}

/// Appending to text.
pub trait UnicodeStringExt: UnicodeString {
    /// Append `s`.
    fn push(&mut self, s: &Vec<char>)
        ensures
            final(self).spec_chars() == old(self).spec_chars() + s@,
            final(self).spec_encoding() == old(self).spec_encoding(),
    ;
}

/// Queries on text, with offsets in code units.
pub trait UnicodeStrExt: UnicodeStr {
    /// True when the text is empty.
    fn is_empty(&self) -> (b: bool)
        ensures
            b == (self.spec_chars().len() == 0),
    ;

    /// The length of the text in code units.
    fn len(&self) -> (n: usize)
        requires
            units(self.spec_chars(), self.spec_encoding()) <= usize::MAX,
        ensures
            n == units(self.spec_chars(), self.spec_encoding()),
    ;

    /// The UTF-8 offset of the code unit offset `pos`, rounded up to the next
    /// character boundary.
    fn u8_map_index(&self, pos: usize) -> (r: usize)
        requires
            pos <= units(self.spec_chars(), self.spec_encoding()),
            units(self.spec_chars(), Encoding::Utf8) <= usize::MAX,
        ensures
            r == units(
                self.spec_chars().take(char_index(self.spec_chars(), self.spec_encoding(), pos as nat) as int),
                Encoding::Utf8,
            ),
    ;

    /// The clusters that end and that start at the code unit offset
    /// `index`, rounded up to the next character boundary.
    fn find_graphemes_at(&self, index: usize) -> (r: (Option<Vec<char>>, Option<Vec<char>>))
        requires
            index <= units(self.spec_chars(), self.spec_encoding()),
        ensures
            ({
                let k = char_index(self.spec_chars(), self.spec_encoding(), index as nat);
                let gs = grapheme_split(self.spec_chars());
                &&& match r.0 {
                    Some(g) => cluster_ending_at(gs, k, 0) == Some(g@),
                    None => cluster_ending_at(gs, k, 0) is None,
                }
                &&& match r.1 {
                    Some(g) => cluster_starting_at(gs, k, 0) == Some(g@),
                    None => cluster_starting_at(gs, k, 0) is None,
                }
            }),
    ;

    /// How many code units lie between `pos` and the cluster of white space
    /// before it, or the start of the text, going back cluster by cluster.
    fn previous_whitespace_offset(&self, pos: usize) -> (r: usize)
        requires
            pos <= units(self.spec_chars(), self.spec_encoding()),
            units(
                self.spec_chars().take(char_index(self.spec_chars(), self.spec_encoding(), pos as nat) as int),
                self.spec_encoding(),
            ) == pos,
        ensures
            ({
                let k = char_index(self.spec_chars(), self.spec_encoding(), pos as nat);
                let gs = grapheme_split(self.spec_chars());
                r == units(self.spec_chars().subrange(walk_back(gs, k) as int, k as int), self.spec_encoding())
            }),
    ;

    /// How many code units lie between `pos` and the cluster of white space
    /// after it, or the end of the text, going forward cluster by cluster.
    fn next_whitespace_offset(&self, pos: usize) -> (r: usize)
        requires
            units(self.spec_chars(), self.spec_encoding()) <= usize::MAX,
            pos <= units(self.spec_chars(), self.spec_encoding()),
            units(
                self.spec_chars().take(char_index(self.spec_chars(), self.spec_encoding(), pos as nat) as int),
                self.spec_encoding(),
            ) == pos,
        ensures
            ({
                let k = char_index(self.spec_chars(), self.spec_encoding(), pos as nat);
                let gs = grapheme_split(self.spec_chars());
                r == units(
                    self.spec_chars().subrange(k as int, walk_forward(gs, self.spec_chars().len(), k) as int),
                    self.spec_encoding(),
                )
            }),
    ;
}

/// How many code units of `e` the character `c` takes.
pub fn unit_len_exec(c: char, e: Encoding) -> (n: usize)
    ensures
        n == unit_len(c, e),
{
    let v = c as u32;
    match e {
        Encoding::Utf8 => if v < 0x80 {
            1
        } else if v < 0x800 {
            2
        } else if v < 0x10000 {
            3
        } else {
            4
        },
        Encoding::Utf16 => if v < 0x10000 {
            1
        } else {
            2
        },
        Encoding::Utf32 => 1,
    }
}

impl EncodedText {
    /// A text holding `chars`, with offsets counted in `encoding`.
    pub fn new(chars: Vec<char>, encoding: Encoding) -> (t: Self)
        ensures
            t.spec_chars() == chars@,
            t.spec_encoding() == encoding,
    {
        EncodedText { chars, encoding }
    }

    /// The character index for the code unit offset `pos`, rounded up to
    /// the next character boundary.
    fn char_index_exec(&self, pos: usize) -> (k: usize)
        requires
            pos <= units(self.chars@, self.encoding),
        ensures
            k == char_index(self.chars@, self.encoding, pos as nat),
            k <= self.chars@.len(),
    {
        let mut k: usize = 0;
        let mut rem: usize = pos;
        proof {
            lemma_boundary_range(self.chars@, self.encoding, pos as nat, 0);
            assert(self.chars@.take(0) =~= Seq::<char>::empty());
        }
        while k < self.chars.len() && rem > 0
            invariant
                k <= self.chars@.len(),
                rem == (if units(self.chars@.take(k as int), self.encoding) >= pos { 0 } else { pos - units(self.chars@.take(k as int), self.encoding) }),
                boundary_from(self.chars@, self.encoding, pos as nat, 0) == boundary_from(self.chars@, self.encoding, pos as nat, k as nat),
            decreases self.chars@.len() - k,
        {
            proof {
                lemma_units_prefix_step(self.chars@, self.encoding, k as int);
            }
            let c = self.chars[k];
            let u = unit_len_exec(c, self.encoding);
            if u >= rem {
                rem = 0;
            } else {
                rem = rem - u;
            }
            k += 1;
        }
        k
    }
}

impl UnicodeStr for EncodedText {
    closed spec fn spec_chars(&self) -> Seq<char> {
        self.chars@
    }

    closed spec fn spec_encoding(&self) -> Encoding {
        self.encoding
    }

    fn chars(&self) -> (c: Vec<char>) {
        crate::leaf_nodes::copy_range(&self.chars, 0, self.chars.len())
    }

    fn char_len(&self, c: &char) -> (n: usize) {
        unit_len_exec(*c, self.encoding)
    }

    fn char_at(&self, idx: usize) -> (c: char) {
        self.chars[idx]
    }
}

impl UnicodeString for EncodedText {
    fn insert(&mut self, idx: usize, s: &Vec<char>) {
        let ghost before = self.chars@;
        let mut i: usize = 0;
        while i < s.len()
            invariant
                i <= s@.len(),
                idx <= before.len(),
                self.encoding == old(self).encoding,
                self.chars@ == before.take(idx as int) + s@.take(i as int) + before.skip(idx as int),
            decreases s@.len() - i,
        {
            let cur = self.chars.len();
            assert(cur == before.len() + i);
            self.chars.insert(idx + i, s[i]);
            i += 1;
            assert(self.chars@ =~= before.take(idx as int) + s@.take(i as int) + before.skip(idx as int));
        }
        assert(s@.take(i as int) =~= s@);
    }

    fn remove_at(&mut self, idx: usize) -> (c: char) {
        self.chars.remove(idx)
    }

    fn pop_first(&mut self) -> (c: Option<char>) {
        if self.chars.len() == 0 {
            None
        } else {
            let c = self.chars.remove(0);
            assert(old(self).spec_chars().remove(0) =~= old(self).spec_chars().skip(1));
            Some(c)
        }
    }

    fn pop_last(&mut self) -> (c: Option<char>) {
        self.chars.pop()
    }
}

impl UnicodeStringExt for EncodedText {
    fn push(&mut self, s: &Vec<char>) {
        crate::html::push_chars(&mut self.chars, s);
    }
}

impl UnicodeStrExt for EncodedText {
    fn is_empty(&self) -> (b: bool) {
        self.chars.len() == 0
    }

    fn len(&self) -> (n: usize) {
        let mut n: usize = 0;
        let mut i: usize = 0;
        while i < self.chars.len()
            invariant
                i <= self.chars@.len(),
                n == units(self.chars@.take(i as int), self.encoding),
                units(self.chars@, self.encoding) <= usize::MAX,
            decreases self.chars@.len() - i,
        {
            proof {
                lemma_units_prefix_step(self.chars@, self.encoding, i as int);
                if i + 1 < self.chars@.len() {
                    lemma_units_monotonic(self.chars@, self.encoding, i + 1, self.chars@.len() as int);
                }
                assert(self.chars@.take(self.chars@.len() as int) =~= self.chars@);
            }
            n = n + unit_len_exec(self.chars[i], self.encoding);
            i += 1;
        }
        assert(self.chars@.take(i as int) =~= self.chars@);
        n
    }

    fn u8_map_index(&self, pos: usize) -> (r: usize) {
        let k = self.char_index_exec(pos);
        let mut n: usize = 0;
        let mut i: usize = 0;
        while i < k
            invariant
                i <= k <= self.chars@.len(),
                n == units(self.chars@.take(i as int), Encoding::Utf8),
                units(self.chars@, Encoding::Utf8) <= usize::MAX,
            decreases k - i,
        {
            proof {
                lemma_units_prefix_step(self.chars@, Encoding::Utf8, i as int);
                if i + 1 < self.chars@.len() {
                    lemma_units_monotonic(self.chars@, Encoding::Utf8, i + 1, self.chars@.len() as int);
                }
                assert(self.chars@.take(self.chars@.len() as int) =~= self.chars@);
            }
            n = n + unit_len_exec(self.chars[i], Encoding::Utf8);
            i += 1;
        }
        n
    }

    fn find_graphemes_at(&self, index: usize) -> (r: (Option<Vec<char>>, Option<Vec<char>>)) {
        let k = self.char_index_exec(index);
        let gs = graphemes_checked(&self.chars);
        let ghost gsv = grapheme_split(self.chars@);
        let mut prev: Option<Vec<char>> = None;
        let mut next: Option<Vec<char>> = None;
        let mut off: usize = 0;
        let mut i: usize = 0;
        let n = self.chars.len();
        proof {
            assert(gsv.skip(0) =~= gsv);
            assert(gsv.take(0) =~= Seq::<Seq<char>>::empty());
        }
        while i < gs.len()
            invariant
                n == self.chars@.len(),
                i <= gs@.len(),
                gs@.len() == gsv.len(),
                forall|j: int| 0 <= j < gs@.len() ==> (#[trigger] gs@[j])@ == gsv[j],
                concat_all(gsv) == self.chars@,
                off == concat_all(gsv.take(i as int)).len(),
                match prev {
                    Some(g) => cluster_ending_at(gsv, k as nat, 0) == Some(g@),
                    None => cluster_ending_at(gsv, k as nat, 0) == cluster_ending_at(gsv.skip(i as int), k as nat, off as nat),
                },
                match next {
                    Some(g) => cluster_starting_at(gsv, k as nat, 0) == Some(g@),
                    None => cluster_starting_at(gsv, k as nat, 0) == cluster_starting_at(gsv.skip(i as int), k as nat, off as nat),
                },
            decreases gs@.len() - i,
        {
            proof {
                lemma_concat_prefix(gsv, i as int);
                lemma_concat_split(gsv, i + 1);
                assert(gsv.skip(i as int).skip(1) =~= gsv.skip(i + 1));
                assert(gsv.skip(i as int)[0] == gsv[i as int]);
            }
            let g = &gs[i];
            let glen = g.len();
            if next.is_none() && off == k {
                next = Some(crate::leaf_nodes::copy_range(g, 0, glen));
                assert(g@.subrange(0, glen as int) =~= g@);
            }
            if prev.is_none() && off + glen == k {
                prev = Some(crate::leaf_nodes::copy_range(g, 0, glen));
                assert(g@.subrange(0, glen as int) =~= g@);
            }
            off = off + glen;
            i += 1;
        }
        proof {
            assert(gsv.skip(i as int) =~= Seq::<Seq<char>>::empty());
        }
        (prev, next)
    }

    fn previous_whitespace_offset(&self, pos: usize) -> (r: usize) {
        let ghost s = self.chars@;
        let ghost e = self.encoding;
        let ghost gsv = grapheme_split(s);
        let ghost k0 = char_index(s, e, pos as nat);
        let mut offset: usize = 0;
        let ghost mut kc: nat = k0;
        let _clusters = graphemes_checked(&self.chars);
        proof {
            lemma_boundary_range(s, e, pos as nat, 0);
            assert(s.subrange(k0 as int, k0 as int) =~= Seq::<char>::empty());
        }
        loop
            invariant
                split_facts(s),
                k0 == char_index(s, e, pos as nat),
                s == self.chars@,
                e == self.encoding,
                gsv == grapheme_split(s),
                k0 <= s.len(),
                kc <= k0,
                offset <= pos,
                units(s.take(kc as int), e) == pos - offset,
                units(s.take(k0 as int), e) == pos,
                offset == units(s.subrange(kc as int, k0 as int), e),
                walk_back(gsv, k0) == walk_back(gsv, kc),
            decreases kc,
        {
            proof {
                lemma_boundary_exact(s, e, kc as int, 0);
                lemma_units_split(s, e, kc as int, s.len() as int);
                assert(s.take(s.len() as int) =~= s);
            }
            assert(char_index(s, e, (pos - offset) as nat) == kc);
            let (prev, _) = self.find_graphemes_at(pos - offset);
            match prev {
                None => {
                    assert(walk_back(gsv, kc) == kc);
                    assert(self.spec_chars() == s && self.spec_encoding() == e);
                    assert(offset == units(s.subrange(walk_back(gsv, k0) as int, k0 as int), e));
                    return offset;
                },
                Some(g) => {
                    let mut all_ws = true;
                    let mut j: usize = 0;
                    while j < g.len()
                        invariant
                            j <= g@.len(),
                            all_ws == forall|m: int| 0 <= m < j ==> spec_is_whitespace(#[trigger] g@[m]),
                        decreases g@.len() - j,
                    {
                        if !is_whitespace(g[j]) {
                            all_ws = false;
                        }
                        j += 1;
                    }
                    if all_ws {
                        assert(all_whitespace(g@));
                        assert(walk_back(gsv, kc) == kc);
                        assert(self.spec_chars() == s && self.spec_encoding() == e);
                        assert(offset == units(s.subrange(walk_back(gsv, k0) as int, k0 as int), e));
                        return offset;
                    }
                    proof {
                        lemma_back_step(s, e, k0 as int, kc as int, g@);
                    }
                    let glen = self.units_of(&g);
                    offset = offset + glen;
                    proof {
                        kc = (kc - g@.len()) as nat;
                    }
                },
            }
        }
    }

    fn next_whitespace_offset(&self, pos: usize) -> (r: usize) {
        let ghost s = self.chars@;
        let ghost e = self.encoding;
        let ghost gsv = grapheme_split(s);
        let ghost k0 = char_index(s, e, pos as nat);
        let mut offset: usize = 0;
        let ghost mut kc: nat = k0;
        let _clusters = graphemes_checked(&self.chars);
        proof {
            lemma_boundary_range(s, e, pos as nat, 0);
            assert(s.subrange(k0 as int, k0 as int) =~= Seq::<char>::empty());
        }
        loop
            invariant
                split_facts(s),
                k0 == char_index(s, e, pos as nat),
                s == self.chars@,
                e == self.encoding,
                gsv == grapheme_split(s),
                k0 <= kc <= s.len(),
                units(s, e) <= usize::MAX,
                units(s.take(kc as int), e) == pos + offset,
                units(s.take(k0 as int), e) == pos,
                offset == units(s.subrange(k0 as int, kc as int), e),
                walk_forward(gsv, s.len(), k0) == walk_forward(gsv, s.len(), kc),
            decreases s.len() - kc,
        {
            proof {
                lemma_boundary_exact(s, e, kc as int, 0);
                lemma_units_split(s, e, kc as int, s.len() as int);
                assert(s.take(s.len() as int) =~= s);
            }
            assert(char_index(s, e, (pos + offset) as nat) == kc);
            let (_, next) = self.find_graphemes_at(pos + offset);
            match next {
                None => {
                    assert(walk_forward(gsv, s.len(), kc) == kc);
                    assert(self.spec_chars() == s && self.spec_encoding() == e);
                    assert(offset == units(s.subrange(k0 as int, walk_forward(gsv, s.len(), k0) as int), e));
                    return offset;
                },
                Some(g) => {
                    let mut all_ws = true;
                    let mut j: usize = 0;
                    while j < g.len()
                        invariant
                            j <= g@.len(),
                            all_ws == forall|m: int| 0 <= m < j ==> spec_is_whitespace(#[trigger] g@[m]),
                        decreases g@.len() - j,
                    {
                        if !is_whitespace(g[j]) {
                            all_ws = false;
                        }
                        j += 1;
                    }
                    if all_ws {
                        assert(all_whitespace(g@));
                        assert(walk_forward(gsv, s.len(), kc) == kc);
                        assert(self.spec_chars() == s && self.spec_encoding() == e);
                        assert(offset == units(s.subrange(k0 as int, walk_forward(gsv, s.len(), k0) as int), e));
                        return offset;
                    }
                    proof {
                        lemma_forward_step(s, e, k0 as int, kc as int, g@);
                    }
                    let glen = self.units_of(&g);
                    offset = offset + glen;
                    proof {
                        kc = kc + g@.len();
                    }
                },
            }
        }
    }
}

impl EncodedText {
    /// How many code units the characters `g` take, when `g` is a piece of
    /// this text.
    fn units_of(&self, g: &Vec<char>) -> (n: usize)
        requires
            units(g@, self.encoding) <= usize::MAX,
        ensures
            n == units(g@, self.encoding),
    {
        let mut n: usize = 0;
        let mut i: usize = 0;
        while i < g.len()
            invariant
                i <= g@.len(),
                n == units(g@.take(i as int), self.encoding),
                units(g@, self.encoding) <= usize::MAX,
            decreases g@.len() - i,
        {
            proof {
                lemma_units_prefix_step(g@, self.encoding, i as int);
                if i + 1 < g@.len() {
                    lemma_units_monotonic(g@, self.encoding, i + 1, g@.len() as int);
                }
                assert(g@.take(g@.len() as int) =~= g@);
            }
            n = n + unit_len_exec(g[i], self.encoding);
            i += 1;
        }
        assert(g@.take(i as int) =~= g@);
        n
    }
}

} // verus!

use vstd::prelude::*;

use crate::handle::DomHandle;
use crate::kinds::Direction;

verus! {

/// The zero-width space character.
pub open spec fn zwsp_char() -> char {
    '\u{200B}'
}

/// Whether the standard library counts `c` as white space (Unicode
/// `White_Space` property).
pub open spec fn spec_is_whitespace(c: char) -> bool {
    ('\u{9}' <= c <= '\u{D}') || c == ' ' || c == '\u{85}' || c == '\u{A0}' || c == '\u{1680}'
        || ('\u{2000}' <= c <= '\u{200A}') || c == '\u{2028}' || c == '\u{2029}' || c == '\u{202F}'
        || c == '\u{205F}' || c == '\u{3000}'
}

/// True for the characters with the Unicode `White_Space` property, the
/// ones that `char::is_whitespace` accepts.
pub fn is_whitespace(c: char) -> (b: bool)
    ensures
        b == spec_is_whitespace(c),
{
    ('\u{9}' <= c && c <= '\u{D}') || c == ' ' || c == '\u{85}' || c == '\u{A0}' || c == '\u{1680}'
        || ('\u{2000}' <= c && c <= '\u{200A}') || c == '\u{2028}' || c == '\u{2029}' || c
        == '\u{202F}' || c == '\u{205F}' || c == '\u{3000}'
}

/// ASCII punctuation: `!` to `/`, `:` to `@`, `[` to `` ` `` and `{` to `~`.
pub open spec fn spec_is_ascii_punctuation(c: char) -> bool {
    ('!' <= c <= '/') || (':' <= c <= '@') || ('[' <= c <= '`') || ('{' <= c <= '~')
}

/// True for ASCII punctuation characters.
pub fn is_ascii_punctuation(c: char) -> (b: bool)
    ensures
        b == spec_is_ascii_punctuation(c),
{
    ('!' <= c && c <= '/') || (':' <= c && c <= '@') || ('[' <= c && c <= '`') || ('{' <= c
        && c <= '~')
}

/// Classes of characters used to decide where word-wise movement stops.
#[derive(Clone, Copy, Debug, PartialEq, Eq, Structural)]
pub enum CharType {
    Whitespace,
    Punctuation,
    Other,
}

/// The class of a character.
pub open spec fn char_type_of(c: char) -> CharType {
    if spec_is_whitespace(c) {
        CharType::Whitespace
    } else if spec_is_ascii_punctuation(c) {
        CharType::Punctuation
    } else {
        CharType::Other
    }
}

/// The class of a character: white space, ASCII punctuation or other.
pub fn get_char_type(c: char) -> (t: CharType)
    ensures
        t == char_type_of(c),
{
    if is_whitespace(c) {
        CharType::Whitespace
    } else if is_ascii_punctuation(c) {
        CharType::Punctuation
    } else {
        CharType::Other
    }
}

/// A character that `is_blank` accepts: a space or one of `\t` to `\r`.
pub open spec fn is_blank_char(c: char) -> bool {
    c == ' ' || ('\x09' <= c <= '\x0d')
}

/// A run of text.
#[derive(Debug, PartialEq, Eq)]
pub struct TextNode {
    data: Vec<char>,
    handle: DomHandle,
}

impl TextNode {
    /// The text of this node.
    pub closed spec fn spec_data(&self) -> Seq<char> {
        self.data@
    }

    /// The handle of this node.
    pub closed spec fn spec_handle(&self) -> Option<Seq<usize>> {
        self.handle@
    }

    /// Create a new text node with an unset handle.
    pub fn from(data: Vec<char>) -> (t: TextNode)
        ensures
            t.spec_data() == data@,
            t.spec_handle() == None::<Seq<usize>>,
    {
        TextNode { data, handle: DomHandle::new_unset() }
    }

    /// The text of this node.
    pub fn data(&self) -> (d: &Vec<char>)
        ensures
            d@ == self.spec_data(),
    {
        &self.data
    }

    /// Replace the text of this node.
    pub fn set_data(&mut self, data: Vec<char>)
        ensures
            final(self).spec_data() == data@,
            final(self).spec_handle() == old(self).spec_handle(),
    {
        self.data = data;
    }

    /// The handle of this node.
    pub fn handle(&self) -> (h: DomHandle)
        ensures
            h@ == self.spec_handle(),
    {
        self.handle.clone()
    }

    /// Set the handle of this node.
    pub fn set_handle(&mut self, handle: DomHandle)
        ensures
            final(self).spec_handle() == handle@,
            final(self).spec_data() == old(self).spec_data(),
    {
        self.handle = handle;
    }

    /// True when every character is a space or one of `\t` to `\r`.
    pub fn is_blank(&self) -> (b: bool)
        ensures
            b == (forall|i: int| 0 <= i < self.spec_data().len() ==> is_blank_char(
                #[trigger] self.spec_data()[i],
            )),
    {
        let mut i: usize = 0;
        while i < self.data.len()
            invariant
                i <= self.data@.len(),
                forall|j: int| 0 <= j < i ==> is_blank_char(#[trigger] self.data@[j]),
            decreases self.data@.len() - i,
        {
            let c = self.data[i];
            if !(c == ' ' || ('\x09' <= c && c <= '\x0d')) {
                assert(!is_blank_char(self.spec_data()[i as int]));
                return false;
            }
            i += 1;
        }
        true
    }

    /// Removes a trailing `\n`, returning whether there was one.
    pub fn remove_trailing_line_break(&mut self) -> (removed: bool)
        ensures
            removed == (old(self).spec_data().len() > 0 && old(self).spec_data().last() == '\n'),
            final(self).spec_data() == (if removed {
                old(self).spec_data().drop_last()
            } else {
                old(self).spec_data()
            }),
            final(self).spec_handle() == old(self).spec_handle(),
    {
        let n = self.data.len();
        if n > 0 && self.data[n - 1] == '\n' {
            self.data.pop();
            true
        } else {
            false
        }
    }

    /// A new text node (with an unset handle) holding the given range of
    /// this node's text.
    pub fn clone_with_range(&self, range: std::ops::Range<usize>) -> (t: TextNode)
        requires
            range.start <= range.end <= self.spec_data().len(),
        ensures
            t.spec_data() == self.spec_data().subrange(range.start as int, range.end as int),
            t.spec_handle() == None::<Seq<usize>>,
    {
        TextNode::from(copy_range(&self.data, range.start, range.end))
    }

    /// The character that a cursor at `offset` passes over when moving in
    /// `direction`, if there is one.
    fn char_at_offset(&self, offset: usize, direction: &Direction) -> (c: Option<char>)
        requires
            *direction == Direction::Backwards ==> offset > 0,
        ensures
            c == (if *direction == Direction::Forwards {
                if offset < self.spec_data().len() {
                    Some(self.spec_data()[offset as int])
                } else {
                    None
                }
            } else {
                if offset - 1 < self.spec_data().len() {
                    Some(self.spec_data()[offset - 1])
                } else {
                    None
                }
            }),
    {
        let i = direction.get_index_from_cursor(offset);
        if i < self.data.len() {
            Some(self.data[i])
        } else {
            None
        }
    }

    /// The class of the character that a cursor at `offset` passes over when
    /// moving in `direction`, if there is one.
    pub fn char_type_at_offset(&self, offset: usize, direction: &Direction) -> (t: Option<
        CharType,
    >)
        requires
            *direction == Direction::Backwards ==> offset > 0,
        ensures
            t == (if *direction == Direction::Forwards {
                if offset < self.spec_data().len() {
                    Some(char_type_of(self.spec_data()[offset as int]))
                } else {
                    None
                }
            } else {
                if offset - 1 < self.spec_data().len() {
                    Some(char_type_of(self.spec_data()[offset - 1]))
                } else {
                    None
                }
            }),
    {
        match self.char_at_offset(offset, direction) {
            Some(c) => Some(get_char_type(c)),
            None => None,
        }
    }

    /// Whether a cursor at `current_offset` is inside this node when moving
    /// in `direction`: the cursor counts as inside at one end but not the other.
    pub fn offset_is_inside_node(&self, current_offset: usize, direction: &Direction) -> (b: bool)
        ensures
            b == (match *direction {
                Direction::Forwards => current_offset < self.spec_data().len(),
                Direction::Backwards => current_offset > 0,
            }),
    {
        let node_length = self.data.len();
        match direction {
            Direction::Forwards => current_offset < node_length,
            Direction::Backwards => current_offset > 0,
        }
    }

    /// True when the node holds no text: zero-length text nodes exist.
    pub fn is_empty(&self) -> (b: bool)
        ensures
            b == (self.spec_data().len() == 0),
    {
        self.data.len() == 0
    }

    /// Push the text of `other_node` onto this node, unless that text is
    /// empty or a single zero-width space.
    pub fn push(&mut self, other_node: &TextNode)
        ensures
            final(self).spec_data() == (if other_node.spec_data().len() == 0
                || other_node.spec_data() == seq![zwsp_char()] {
                old(self).spec_data()
            } else {
                old(self).spec_data() + other_node.spec_data()
            }),
            final(self).spec_handle() == old(self).spec_handle(),
    {
        let other = &other_node.data;
        if other.len() == 0 || (other.len() == 1 && other[0] == '\u{200B}') {
            proof {
                if other@.len() == 1 && other@[0] == zwsp_char() {
                    assert(other@ =~= seq![zwsp_char()]);
                }
            }
            return;
        }
        assert(other@ != seq![zwsp_char()]);
        let mut i: usize = 0;
        let ghost start = self.data@;
        while i < other.len()
            invariant
                i <= other@.len(),
                self.data@ == start + other@.subrange(0, i as int),
                self.handle@ == old(self).spec_handle(),
                start == old(self).spec_data(),
            decreases other@.len() - i,
        {
            self.data.push(other[i]);
            i += 1;
            assert(self.data@ =~= start + other@.subrange(0, i as int));
        }
        assert(other@.subrange(0, other@.len() as int) =~= other@);
    }

    /// Cut this node's text at `position`, keeping the text before it and
    /// returning a new node (with an unset handle) holding the text after it.
    pub fn slice_after(&mut self, position: usize) -> (after: TextNode)
        requires
            position <= old(self).spec_data().len(),
        ensures
            final(self).spec_data() == old(self).spec_data().subrange(0, position as int),
            after.spec_data() == old(self).spec_data().subrange(
                position as int,
                old(self).spec_data().len() as int,
            ),
            final(self).spec_handle() == old(self).spec_handle(),
            after.spec_handle() == None::<Seq<usize>>,
    {
        let n = self.data.len();
        let data_after = copy_range(&self.data, position, n);
        let data_before = copy_range(&self.data, 0, position);
        self.set_data(data_before);
        TextNode::from(data_after)
    }

    /// Cut this node's text at `position`, keeping the text after it and
    /// returning a new node (with an unset handle) holding the text before it.
    pub fn slice_before(&mut self, position: usize) -> (before: TextNode)
        requires
            position <= old(self).spec_data().len(),
        ensures
            final(self).spec_data() == old(self).spec_data().subrange(
                position as int,
                old(self).spec_data().len() as int,
            ),
            before.spec_data() == old(self).spec_data().subrange(0, position as int),
            final(self).spec_handle() == old(self).spec_handle(),
            before.spec_handle() == None::<Seq<usize>>,
    {
        let n = self.data.len();
        let data_before = copy_range(&self.data, 0, position);
        let data_after = copy_range(&self.data, position, n);
        self.set_data(data_after);
        TextNode::from(data_before)
    }
}

impl Clone for TextNode {
    fn clone(&self) -> (t: Self)
        ensures
            t.spec_data() == self.spec_data(),
            t.spec_handle() == self.spec_handle(),
    {
        TextNode { data: copy_range(&self.data, 0, self.data.len()), handle: self.handle.clone() }
    }
}

/// A copy of `v[start..end]`.
pub fn copy_range(v: &Vec<char>, start: usize, end: usize) -> (r: Vec<char>)
    requires
        start <= end <= v@.len(),
    ensures
        r@ == v@.subrange(start as int, end as int),
{
    let mut r: Vec<char> = Vec::new();
    let mut i = start;
    while i < end
        invariant
            start <= i <= end,
            end <= v@.len(),
            r@ == v@.subrange(start as int, i as int),
        decreases end - i,
    {
        r.push(v[i]);
        i += 1;
        assert(r@ =~= v@.subrange(start as int, i as int));
    }
    r
}

/// A line break (`<br />`); it counts as one code unit of text.
#[derive(Debug, PartialEq, Eq)]
pub struct LineBreakNode {
    handle: DomHandle,
}

impl LineBreakNode {
    /// The handle of this node.
    pub closed spec fn spec_handle(&self) -> Option<Seq<usize>> {
        self.handle@
    }

    /// A new line break with an unset handle.
    pub fn default() -> (n: LineBreakNode)
        ensures
            n.spec_handle() == None::<Seq<usize>>,
    {
        LineBreakNode { handle: DomHandle::new_unset() }
    }

    /// The tag name, `br`.
    pub fn name(&self) -> (n: Vec<char>)
        ensures
            n@ == seq!['b', 'r'],
    {
        let n = vec!['b', 'r'];
        assert(n@ =~= seq!['b', 'r']);
        n
    }

    /// Set the handle of this node.
    pub fn set_handle(&mut self, handle: DomHandle)
        ensures
            final(self).spec_handle() == handle@,
    {
        self.handle = handle;
    }

    /// The handle of this node.
    pub fn handle(&self) -> (h: DomHandle)
        ensures
            h@ == self.spec_handle(),
    {
        self.handle.clone()
    }

    /// A line break always counts as one code unit.
    pub fn text_len(&self) -> (n: usize)
        ensures
            n == 1,
    {
        1
    }
}

impl Clone for LineBreakNode {
    fn clone(&self) -> (n: Self)
        ensures
            n.spec_handle() == self.spec_handle(),
    {
        LineBreakNode { handle: self.handle.clone() }
    }
}

/// A zero-width space placeholder.
#[derive(Debug, PartialEq, Eq)]
pub struct ZwspNode {
    data: Vec<char>,
    handle: DomHandle,
}

impl ZwspNode {
    /// The text of this node: always a single zero-width space.
    pub closed spec fn spec_data(&self) -> Seq<char> {
        self.data@
    }

    /// The handle of this node.
    pub closed spec fn spec_handle(&self) -> Option<Seq<usize>> {
        self.handle@
    }

    /// Well-formedness: the node holds exactly one zero-width space.
    pub closed spec fn wf(&self) -> bool {
        self.data@ == seq![zwsp_char()]
    }

    /// A new zero-width space node with an unset handle.
    pub fn default() -> (n: ZwspNode)
        ensures
            n.spec_data() == seq![zwsp_char()],
            n.spec_handle() == None::<Seq<usize>>,
    {
        let data = vec!['\u{200B}'];
        assert(data@ =~= seq![zwsp_char()]);
        ZwspNode { data, handle: DomHandle::new_unset() }
    }

    /// The text of this node.
    pub fn data(&self) -> (d: &Vec<char>)
        ensures
            d@ == self.spec_data(),
    {
        &self.data
    }

    /// The handle of this node.
    pub fn handle(&self) -> (h: DomHandle)
        ensures
            h@ == self.spec_handle(),
    {
        self.handle.clone()
    }

    /// Set the handle of this node.
    pub fn set_handle(&mut self, handle: DomHandle)
        ensures
            final(self).spec_handle() == handle@,
            final(self).spec_data() == old(self).spec_data(),
    {
        self.handle = handle;
    }
}

impl Clone for ZwspNode {
    fn clone(&self) -> (n: Self)
        ensures
            n.spec_data() == self.spec_data(),
            n.spec_handle() == self.spec_handle(),
    {
        ZwspNode { data: copy_range(&self.data, 0, self.data.len()), handle: self.handle.clone() }
    }
}

} // verus!

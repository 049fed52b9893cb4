use vstd::prelude::*;

verus! {

/// The inline formats a formatting container can apply.
#[derive(Clone, Copy, Debug, PartialEq, Eq, Structural)]
pub enum InlineFormatType {
    Bold,
    Italic,
    StrikeThrough,
    Underline,
    InlineCode,
}

/// The tag written for a format.
pub open spec fn format_tag(f: InlineFormatType) -> Seq<char> {
    match f {
        InlineFormatType::Bold => seq!['s', 't', 'r', 'o', 'n', 'g'],
        InlineFormatType::Italic => seq!['e', 'm'],
        InlineFormatType::StrikeThrough => seq!['d', 'e', 'l'],
        InlineFormatType::Underline => seq!['u'],
        InlineFormatType::InlineCode => seq!['c', 'o', 'd', 'e'],
    }
}

/// The format a tag stands for, if it stands for one.
pub open spec fn format_of_tag(tag: Seq<char>) -> Option<InlineFormatType> {
    if tag == seq!['b'] || tag == seq!['s', 't', 'r', 'o', 'n', 'g'] {
        Some(InlineFormatType::Bold)
    } else if tag == seq!['i'] || tag == seq!['e', 'm'] {
        Some(InlineFormatType::Italic)
    } else if tag == seq!['d', 'e', 'l'] {
        Some(InlineFormatType::StrikeThrough)
    } else if tag == seq!['u'] {
        Some(InlineFormatType::Underline)
    } else if tag == seq!['c', 'o', 'd', 'e'] {
        Some(InlineFormatType::InlineCode)
    } else {
        None
    }
}

/// True when the two character sequences are equal.
pub fn chars_eq(a: &Vec<char>, b: &Vec<char>) -> (r: bool)
    ensures
        r == (a@ == b@),
{
    if a.len() != b.len() {
        return false;
    }
    let mut i: usize = 0;
    while i < a.len()
        invariant
            i <= a@.len(),
            a@.len() == b@.len(),
            forall|j: int| 0 <= j < i ==> a@[j] == b@[j],
        decreases a@.len() - i,
    {
        if a[i] != b[i] {
            return false;
        }
        i += 1;
    }
    assert(a@ =~= b@);
    true
}

impl InlineFormatType {
    /// The tag written for this format.
    pub fn tag(&self) -> (t: Vec<char>)
        ensures
            t@ == format_tag(*self),
    {
        match self {
            InlineFormatType::Bold => vec!['s', 't', 'r', 'o', 'n', 'g'],
            InlineFormatType::Italic => vec!['e', 'm'],
            InlineFormatType::StrikeThrough => vec!['d', 'e', 'l'],
            InlineFormatType::Underline => vec!['u'],
            InlineFormatType::InlineCode => vec!['c', 'o', 'd', 'e'],
        }
    }

    /// The format a tag stands for: `b`/`strong`, `i`/`em`, `del`, `u` or `code`.
    pub fn from_tag(tag: &Vec<char>) -> (f: Option<InlineFormatType>)
        ensures
            f == format_of_tag(tag@),
    {
        let b = vec!['b'];
        let strong = vec!['s', 't', 'r', 'o', 'n', 'g'];
        let i = vec!['i'];
        let em = vec!['e', 'm'];
        let del = vec!['d', 'e', 'l'];
        let u = vec!['u'];
        let code = vec!['c', 'o', 'd', 'e'];
        assert(b@ =~= seq!['b']);
        assert(strong@ =~= seq!['s', 't', 'r', 'o', 'n', 'g']);
        assert(i@ =~= seq!['i']);
        assert(em@ =~= seq!['e', 'm']);
        assert(del@ =~= seq!['d', 'e', 'l']);
        assert(u@ =~= seq!['u']);
        assert(code@ =~= seq!['c', 'o', 'd', 'e']);
        if chars_eq(tag, &b) || chars_eq(tag, &strong) {
            Some(InlineFormatType::Bold)
        } else if chars_eq(tag, &i) || chars_eq(tag, &em) {
            Some(InlineFormatType::Italic)
        } else if chars_eq(tag, &del) {
            Some(InlineFormatType::StrikeThrough)
        } else if chars_eq(tag, &u) {
            Some(InlineFormatType::Underline)
        } else if chars_eq(tag, &code) {
            Some(InlineFormatType::InlineCode)
        } else {
            None
        }
    }
}

/// The two kinds of list.
#[derive(Clone, Copy, Debug, PartialEq, Eq, Structural)]
pub enum ListType {
    Ordered,
    Unordered,
}

/// The tag written for a list type.
pub open spec fn list_tag(l: ListType) -> Seq<char> {
    match l {
        ListType::Ordered => seq!['o', 'l'],
        ListType::Unordered => seq!['u', 'l'],
    }
}

impl ListType {
    /// The tag written for this list type.
    pub fn tag(&self) -> (t: Vec<char>)
        ensures
            t@ == list_tag(*self),
    {
        match self {
            ListType::Ordered => vec!['o', 'l'],
            ListType::Unordered => vec!['u', 'l'],
        }
    }

    /// The list type named by `ol` or `ul`; nothing for another tag.
    pub fn from_tag(tag: &Vec<char>) -> (l: Option<ListType>)
        ensures
            l == (if tag@ == seq!['o', 'l'] {
                Some(ListType::Ordered)
            } else if tag@ == seq!['u', 'l'] {
                Some(ListType::Unordered)
            } else {
                None
            }),
    {
        let ol = vec!['o', 'l'];
        let ul = vec!['u', 'l'];
        assert(ol@ =~= seq!['o', 'l']);
        assert(ul@ =~= seq!['u', 'l']);
        if chars_eq(tag, &ol) {
            Some(ListType::Ordered)
        } else if chars_eq(tag, &ul) {
            Some(ListType::Unordered)
        } else {
            None
        }
    }
}

/// The direction in which the cursor travels.
#[derive(Clone, Copy, Debug, PartialEq, Eq, Structural)]
pub enum Direction {
    Forwards,
    Backwards,
}

impl Direction {
    /// The index of the character that the cursor at `index` passes over
    /// when it moves in this direction.
    pub fn get_index_from_cursor(&self, index: usize) -> (i: usize)
        requires
            *self == Direction::Backwards ==> index > 0,
        ensures
            i == (match *self {
                Direction::Forwards => index as int,
                Direction::Backwards => index - 1,
            }),
    {
        match self {
            Direction::Forwards => index,
            Direction::Backwards => index - 1,
        }
    }
}

} // verus!

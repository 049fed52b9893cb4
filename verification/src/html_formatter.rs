use vstd::prelude::*;

use crate::html::{escape_text, nbsp, push_chars, node_html};
use crate::tree::DomNode;

verus! {

/// The characters the formatter writes on their own.
#[derive(Clone, Copy, Debug, PartialEq, Eq, Structural)]
pub enum HtmlChar {
    Equal,
    ForwardSlash,
    Gt,
    Lt,
    Quote,
    Space,
}

/// The character an `HtmlChar` stands for.
pub open spec fn html_char(c: HtmlChar) -> char {
    match c {
        HtmlChar::Equal => '=',
        HtmlChar::ForwardSlash => '/',
        HtmlChar::Gt => '>',
        HtmlChar::Lt => '<',
        HtmlChar::Quote => '"',
        HtmlChar::Space => ' ',
    }
}

/// A space or a non-breaking space.
pub open spec fn is_space(c: char) -> bool {
    c == ' ' || c == nbsp()
}

/// Where the run of spaces that holds `k` starts.
pub open spec fn run_start(s: Seq<char>, k: int) -> int
    decreases k,
{
    if k > 0 && k <= s.len() && is_space(s[k - 1]) {
        run_start(s, k - 1)
    } else {
        k
    }
}

/// Where the run of spaces that holds `k` ends.
pub open spec fn run_end(s: Seq<char>, k: int) -> int
    decreases s.len() - k,
{
    if 0 <= k < s.len() && is_space(s[k]) {
        run_end(s, k + 1)
    } else {
        k
    }
}

/// The run `[a, b)` of spaces is written with non-breaking spaces only: it
/// holds a plain space, and it is longer than one space, or it ends the text
/// of the last node.
pub open spec fn run_replaced(s: Seq<char>, a: int, b: int, is_last: bool) -> bool {
    &&& exists|m: int| a <= m < b && s[m] == ' '
    &&& if b < s.len() {
        b - a > 1
    } else {
        is_last
    }
}

/// Text with the runs of spaces that `run_replaced` selects written with
/// non-breaking spaces.
pub open spec fn several_whitespaces(s: Seq<char>, is_last: bool) -> Seq<char> {
    Seq::new(
        s.len(),
        |k: int|
            if s[k] == ' ' && run_replaced(s, run_start(s, k), run_end(s, k), is_last) {
                nbsp()
            } else {
                s[k]
            },
    )
}

proof fn lemma_run_end(s: Seq<char>, k: int, j: int)
    requires
        0 <= k <= j <= s.len(),
        forall|m: int| k <= m < j ==> is_space(s[m]),
        j == s.len() || !is_space(s[j]),
    ensures
        run_end(s, k) == j,
    decreases j - k,
{
    if k < j {
        lemma_run_end(s, k + 1, j);
    }
}

/// Write the runs of spaces of `html` that `run_replaced` selects with
/// non-breaking spaces, so that they show as typed.
fn handle_several_whitespaces(html: &Vec<char>, is_last: bool) -> (r: Vec<char>)
    ensures
        r@ == several_whitespaces(html@, is_last),
{
    let ghost s = html@;
    let n = html.len();
    let mut out: Vec<char> = Vec::new();
    let mut i: usize = 0;
    while i < n
        invariant
            n == s.len(),
            s == html@,
            i <= n,
            out@.len() == i,
            i == 0 || i == n || !is_space(s[i - 1]) || !is_space(s[i as int]),
            forall|k: int| 0 <= k < i ==> out@[k] == #[trigger] several_whitespaces(s, is_last)[k],
        decreases n - i,
    {
        if html[i] == ' ' || html[i] == '\u{A0}' {
            let mut j: usize = i;
            let mut has_plain: bool = false;
            while j < n && (html[j] == ' ' || html[j] == '\u{A0}')
                invariant
                    n == s.len(),
                    s == html@,
                    i <= j <= n,
                    i == 0 || !is_space(s[i - 1]),
                    forall|m: int| i <= m < j ==> is_space(s[m]),
                    forall|m: int| i <= m < j ==> #[trigger] run_start(s, m) == i,
                    has_plain == exists|m: int| i <= m < j && s[m] == ' ',
                decreases n - j,
            {
                assert(run_start(s, j as int) == (if j > i {
                    run_start(s, j - 1)
                } else {
                    j as int
                }));
                if html[j] == ' ' {
                    has_plain = true;
                }
                j += 1;
            }
            let replace = has_plain && (if j < n {
                j - i > 1
            } else {
                is_last
            });
            proof {
                assert forall|m: int| i <= m < j implies #[trigger] run_end(s, m) == j by {
                    lemma_run_end(s, m, j as int);
                }
                assert(replace == run_replaced(s, i as int, j as int, is_last));
            }
            let mut k: usize = i;
            while k < j
                invariant
                    n == s.len(),
                    s == html@,
                    i <= k <= j <= n,
                    out@.len() == k,
                    forall|m: int| i <= m < j ==> #[trigger] run_start(s, m) == i,
                    forall|m: int| i <= m < j ==> #[trigger] run_end(s, m) == j,
                    replace == run_replaced(s, i as int, j as int, is_last),
                    forall|m: int| 0 <= m < k ==> out@[m] == #[trigger] several_whitespaces(s, is_last)[m],
                decreases j - k,
            {
                let c = html[k];
                assert(run_start(s, k as int) == i && run_end(s, k as int) == j);
                if c == ' ' && replace {
                    out.push('\u{A0}');
                } else {
                    out.push(c);
                }
                k += 1;
            }
            i = j;
        } else {
            out.push(html[i]);
            i += 1;
        }
    }
    assert(out@ =~= several_whitespaces(s, is_last));
    out
}

/// A buffer that HTML is written into.
pub struct HtmlFormatter {
    chars: Vec<char>,
}

impl HtmlFormatter {
    /// What has been written.
    pub closed spec fn spec_chars(&self) -> Seq<char> {
        self.chars@
    }

    /// An empty formatter.
    pub fn new() -> (f: Self)
        ensures
            f.spec_chars().len() == 0,
    {
        HtmlFormatter { chars: Vec::new() }
    }

    /// Write one of the characters of the markup.
    pub fn write_char(&mut self, c: HtmlChar)
        ensures
            final(self).spec_chars() == old(self).spec_chars().push(html_char(c)),
    {
        let ch = match c {
            HtmlChar::Equal => '=',
            HtmlChar::ForwardSlash => '/',
            HtmlChar::Gt => '>',
            HtmlChar::Lt => '<',
            HtmlChar::Quote => '"',
            HtmlChar::Space => ' ',
        };
        self.chars.push(ch);
    }

    /// Write `slice` at the end.
    pub fn write(&mut self, slice: &[char])
        ensures
            final(self).spec_chars() == old(self).spec_chars() + slice@,
    {
        let mut i: usize = 0;
        while i < slice.len()
            invariant
                i <= slice@.len(),
                self.chars@ == old(self).spec_chars() + slice@.subrange(0, i as int),
            decreases slice@.len() - i,
        {
            self.chars.push(slice[i]);
            i += 1;
            assert(self.chars@ =~= old(self).spec_chars() + slice@.subrange(0, i as int));
        }
        assert(slice@.subrange(0, i as int) =~= slice@);
    }

    /// Write `slice` at `pos`, moving what follows.
    pub fn write_at(&mut self, pos: usize, slice: &[char])
        requires
            pos <= old(self).spec_chars().len(),
        ensures
            final(self).spec_chars() == old(self).spec_chars().subrange(0, pos as int) + slice@
                + old(self).spec_chars().subrange(pos as int, old(self).spec_chars().len() as int),
    {
        let ghost before = self.chars@;
        let mut i: usize = 0;
        while i < slice.len()
            invariant
                i <= slice@.len(),
                pos <= before.len(),
                self.chars@ == before.subrange(0, pos as int) + slice@.subrange(0, i as int)
                    + before.subrange(pos as int, before.len() as int),
            decreases slice@.len() - i,
        {
            let cur = self.chars.len();
            assert(cur == before.len() + i);
            self.chars.insert(pos + i, slice[i]);
            i += 1;
            assert(self.chars@ =~= before.subrange(0, pos as int) + slice@.subrange(0, i as int)
                + before.subrange(pos as int, before.len() as int));
        }
        assert(slice@.subrange(0, i as int) =~= slice@);
    }

    /// Write the characters of `chars` at the end, in order.
    pub fn write_iter(&mut self, chars: &Vec<char>)
        ensures
            final(self).spec_chars() == old(self).spec_chars() + chars@,
    {
        self.write(chars.as_slice());
    }

    /// Write the characters of `chars` at the end, in order.
    pub fn write_vec(&mut self, chars: Vec<char>)
        ensures
            final(self).spec_chars() == old(self).spec_chars() + chars@,
    {
        self.write(chars.as_slice());
    }

    /// Write a node: a text node's text escaped, with its runs of spaces
    /// kept visible; any other node as its HTML.
    pub fn write_node(&mut self, node: &DomNode, is_last: bool)
        ensures
            final(self).spec_chars() == old(self).spec_chars() + (match *node {
                DomNode::Text(t) => several_whitespaces(escape_text(t.spec_data()), is_last),
                _ => node_html(*node, is_last),
            }),
    {
        match node {
            DomNode::Text(t) => {
                let escaped = crate::html::escape_text_exec(t.data());
                let processed = handle_several_whitespaces(&escaped, is_last);
                self.write_vec(processed);
            },
            _ => {
                let mut buf: Vec<char> = Vec::new();
                node.write_html(&mut buf, is_last);
                assert(buf@ =~= node_html(*node, is_last));
                self.write_vec(buf);
            },
        }
    }

    /// What has been written.
    pub fn finish(self) -> (s: Vec<char>)
        ensures
            s@ == self.spec_chars(),
    {
        self.chars
    }
}

} // verus!

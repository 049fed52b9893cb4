use vstd::prelude::*;

use crate::errors::MarkdownParseError;
use crate::text::chars_of;

verus! {

/// The HTML that pulldown-cmark writes for `markdown`, parsed with the
/// option flags `options`, each soft line break handed to the writer as the
/// break that `break_for_html` gives for it under `soft_as_hard`.
pub uninterp spec fn cmark_html(markdown: Seq<char>, options: u32, soft_as_hard: bool) -> Seq<char>;

/// The option flag of pulldown-cmark that turns strikethrough on.
pub const STRIKETHROUGH_OPTION: u32 = 8u32;

/// A line break in markdown: soft (a plain newline inside a paragraph) or
/// hard.
#[derive(Clone, Copy, Debug, PartialEq, Eq, Structural)]
pub enum LineBreakKind {
    Soft,
    Hard,
}

/// The break handed to the HTML writer for a break of kind `kind`: every
/// break is hard when `soft_as_hard` holds, else it stays as it is.
pub open spec fn spec_break_for_html(kind: LineBreakKind, soft_as_hard: bool) -> LineBreakKind {
    if soft_as_hard {
        LineBreakKind::Hard
    } else {
        kind
    }
}

/// The break handed to the HTML writer for a break of kind `kind`.
pub fn break_for_html(kind: LineBreakKind, soft_as_hard: bool) -> (r: LineBreakKind)
    ensures
        r == spec_break_for_html(kind, soft_as_hard),
{
    if soft_as_hard {
        LineBreakKind::Hard
    } else {
        kind
    }
}

/// `pulldown_cmark::Parser::new_ext` over `markdown`, with the options
/// whose flags are `option_bits` (`Options::from_bits_truncate`), its
/// events handed to `pulldown_cmark::html::push_html`, each
/// `Event::SoftBreak` as the event of the break that `break_for_html` gives
/// for it. The result is the HTML written, a function of the three
/// arguments alone.
#[verifier::external_body]
fn compile_markdown(markdown: &Vec<char>, option_bits: u32, soft_breaks_as_hard: bool) -> (r: Vec<char>)
    ensures
        r@ == cmark_html(markdown@, option_bits, soft_breaks_as_hard),
{
    let text: String = markdown.iter().collect();
    let options = pulldown_cmark::Options::from_bits_truncate(option_bits);
    let events = pulldown_cmark::Parser::new_ext(&text, options).map(|event| match event {
        pulldown_cmark::Event::SoftBreak => match break_for_html(LineBreakKind::Soft, soft_breaks_as_hard) {
            LineBreakKind::Soft => pulldown_cmark::Event::SoftBreak,
            LineBreakKind::Hard => pulldown_cmark::Event::HardBreak,
        },
        other => other,
    });
    let mut html = String::new();
    pulldown_cmark::html::push_html(&mut html, events);
    html.chars().collect()
}

/// `s` starts with `p`.
pub open spec fn starts_with(s: Seq<char>, p: Seq<char>) -> bool {
    s.len() >= p.len() && s.take(p.len() as int) == p
}

/// How many times `p` occurs in `s`, counting from the left without overlap.
pub open spec fn count_matches(s: Seq<char>, p: Seq<char>) -> nat
    decreases s.len(),
{
    if p.len() == 0 || s.len() < p.len() {
        0
    } else if starts_with(s, p) {
        1 + count_matches(s.skip(p.len() as int), p)
    } else {
        count_matches(s.skip(1), p)
    }
}

/// `s` with each occurrence of `p`, taken from the left without overlap,
/// replaced by `r`.
pub open spec fn replace_all(s: Seq<char>, p: Seq<char>, r: Seq<char>) -> Seq<char>
    decreases s.len(),
{
    if p.len() == 0 || s.len() < p.len() {
        s
    } else if starts_with(s, p) {
        r + replace_all(s.skip(p.len() as int), p, r)
    } else {
        seq![s[0]] + replace_all(s.skip(1), p, r)
    }
}

/// True when `s` holds `p` at `i`.
fn matches_at(s: &Vec<char>, i: usize, p: &Vec<char>) -> (b: bool)
    requires
        i <= s@.len(),
    ensures
        b == starts_with(s@.skip(i as int), p@),
{
    if s.len() - i < p.len() {
        return false;
    }
    let n = s.len();
    let mut k: usize = 0;
    while k < p.len()
        invariant
            k <= p@.len(),
            n == s@.len(),
            i + p@.len() <= s@.len(),
            forall|m: int| 0 <= m < k ==> s@[i + m] == p@[m],
        decreases p@.len() - k,
    {
        if s[i + k] != p[k] {
            assert(s@.skip(i as int).take(p@.len() as int)[k as int] != p@[k as int]);
            return false;
        }
        k += 1;
    }
    assert(s@.skip(i as int).take(p@.len() as int) =~= p@);
    true
}

/// How many times `p` occurs in `s`, counting from the left without overlap.
pub fn count_matches_exec(s: &Vec<char>, p: &Vec<char>) -> (n: usize)
    requires
        p@.len() > 0,
    ensures
        n == count_matches(s@, p@),
{
    let mut n: usize = 0;
    let mut i: usize = 0;
    assert(s@.skip(0) =~= s@);
    while i < s.len()
        invariant
            i <= s@.len(),
            p@.len() > 0,
            n <= i,
            n + count_matches(s@.skip(i as int), p@) == count_matches(s@, p@),
        decreases s@.len() - i,
    {
        let ghost rest = s@.skip(i as int);
        if s.len() - i < p.len() {
            assert(count_matches(rest, p@) == 0);
            return n;
        }
        if matches_at(s, i, p) {
            assert(rest.skip(p@.len() as int) =~= s@.skip(i + p@.len()));
            n += 1;
            i += p.len();
        } else {
            assert(rest.skip(1) =~= s@.skip(i + 1));
            i += 1;
        }
    }
    assert(count_matches(s@.skip(i as int), p@) == 0);
    n
}

/// `s` with each occurrence of `p`, taken from the left without overlap,
/// replaced by `r`.
pub fn replace_all_exec(s: &Vec<char>, p: &Vec<char>, r: &Vec<char>) -> (out: Vec<char>)
    requires
        p@.len() > 0,
    ensures
        out@ == replace_all(s@, p@, r@),
{
    let mut out: Vec<char> = Vec::new();
    let mut i: usize = 0;
    assert(s@.skip(0) =~= s@);
    while i < s.len()
        invariant
            i <= s@.len(),
            p@.len() > 0,
            out@ + replace_all(s@.skip(i as int), p@, r@) == replace_all(s@, p@, r@),
        decreases s@.len() - i,
    {
        let ghost rest = s@.skip(i as int);
        if s.len() - i < p.len() {
            let mut k: usize = i;
            while k < s.len()
                invariant
                    i <= k <= s@.len(),
                    rest == s@.skip(i as int),
                    out@ + s@.subrange(k as int, s@.len() as int) == replace_all(s@, p@, r@),
                decreases s@.len() - k,
            {
                let ghost before = out@;
                out.push(s[k]);
                assert(s@.subrange(k as int, s@.len() as int) =~= seq![s@[k as int]] + s@.subrange(k + 1, s@.len() as int));
                assert(out@ =~= before + seq![s@[k as int]]);
                k += 1;
            }
            assert(rest =~= s@.subrange(i as int, s@.len() as int));
            assert(s@.subrange(k as int, s@.len() as int) =~= Seq::<char>::empty());
            assert(out@ =~= out@ + Seq::<char>::empty());
            return out;
        }
        if matches_at(s, i, p) {
            assert(rest.skip(p@.len() as int) =~= s@.skip(i + p@.len()));
            let ghost before = out@;
            let mut k: usize = 0;
            while k < r.len()
                invariant
                    k <= r@.len(),
                    out@ == before + r@.take(k as int),
                decreases r@.len() - k,
            {
                out.push(r[k]);
                k += 1;
                assert(out@ =~= before + r@.take(k as int));
            }
            assert(r@.take(r@.len() as int) =~= r@);
            assert(before + (r@ + replace_all(s@.skip(i + p@.len()), p@, r@)) =~= out@ + replace_all(s@.skip(i + p@.len()), p@, r@));
            i += p.len();
        } else {
            assert(rest.skip(1) =~= s@.skip(i + 1));
            let ghost before = out@;
            out.push(s[i]);
            assert(before + (seq![s@[i as int]] + replace_all(s@.skip(i + 1), p@, r@)) =~= out@ + replace_all(s@.skip(i + 1), p@, r@));
            i += 1;
        }
    }
    assert(s@.skip(i as int) =~= Seq::<char>::empty());
    assert(out@ + Seq::<char>::empty() =~= out@);
    out
}

/// The replacements made, in order, to the HTML of markdown: the line
/// breaks after block tags go, and so does the one before the `</code>` that
/// ends a code block.
pub open spec fn tidy_steps() -> Seq<(Seq<char>, Seq<char>)> {
    seq![
        ("<ul>\n"@, "<ul>"@),
        ("</ul>\n"@, "</ul>"@),
        ("<ol>\n"@, "<ol>"@),
        ("</ol>\n"@, "</ol>"@),
        ("</li>\n"@, "</li>"@),
        ("<br />\n"@, "<br />"@),
        ("<blockquote>\n"@, "<blockquote>"@),
        ("</blockquote>\n"@, "</blockquote>"@),
        ("<pre>\n"@, "<pre>"@),
        ("</pre>\n"@, "</pre>"@),
        ("<p>\n"@, "<p>"@),
        ("</p>\n"@, "</p>"@),
        ("\n</code>"@, "</code>"@),
    ]
}

/// `h` with the replacements of `steps` made one after the other.
pub open spec fn replace_in_turn(h: Seq<char>, steps: Seq<(Seq<char>, Seq<char>)>) -> Seq<char>
    decreases steps.len(),
{
    if steps.len() == 0 {
        h
    } else {
        replace_all(replace_in_turn(h, steps.drop_last()), steps.last().0, steps.last().1)
    }
}

/// The HTML is one paragraph: it starts with `<p>`, which occurs once.
pub open spec fn is_single_paragraph(h: Seq<char>) -> bool {
    starts_with(h, "<p>"@) && count_matches(h, "<p>"@) == 1
}

/// The HTML without the `<p>` and the `</p>\n` around a single paragraph.
pub open spec fn unwrap_paragraph(h: Seq<char>) -> Seq<char> {
    if is_single_paragraph(h) {
        h.subrange(3, h.len() - 5)
    } else {
        h
    }
}

/// What `MarkdownHTMLParser::to_html` gives for the HTML `h` that the
/// markdown compiles to.
pub open spec fn tidy_markdown_html(h: Seq<char>) -> Result<Seq<char>, MarkdownParseError> {
    if is_single_paragraph(h) && h.len() < 8 {
        Err(MarkdownParseError::InvalidMarkdownError)
    } else {
        Ok(replace_in_turn(unwrap_paragraph(h), tidy_steps()))
    }
}

/// The steps of `tidy_steps`, as values.
fn tidy_steps_exec() -> (v: Vec<(Vec<char>, Vec<char>)>)
    ensures
        v@.len() == tidy_steps().len(),
        forall|i: int| 0 <= i < v@.len() ==> (#[trigger] v@[i]).0@ == tidy_steps()[i].0
            && v@[i].1@ == tidy_steps()[i].1 && v@[i].0@.len() > 0,
{
    let v = vec![
        (chars_of("<ul>\n"), chars_of("<ul>")),
        (chars_of("</ul>\n"), chars_of("</ul>")),
        (chars_of("<ol>\n"), chars_of("<ol>")),
        (chars_of("</ol>\n"), chars_of("</ol>")),
        (chars_of("</li>\n"), chars_of("</li>")),
        (chars_of("<br />\n"), chars_of("<br />")),
        (chars_of("<blockquote>\n"), chars_of("<blockquote>")),
        (chars_of("</blockquote>\n"), chars_of("</blockquote>")),
        (chars_of("<pre>\n"), chars_of("<pre>")),
        (chars_of("</pre>\n"), chars_of("</pre>")),
        (chars_of("<p>\n"), chars_of("<p>")),
        (chars_of("</p>\n"), chars_of("</p>")),
        (chars_of("\n</code>"), chars_of("</code>")),
    ];
    proof {
        reveal_strlit("<ul>\n");
        reveal_strlit("</ul>\n");
        reveal_strlit("<ol>\n");
        reveal_strlit("</ol>\n");
        reveal_strlit("</li>\n");
        reveal_strlit("<br />\n");
        reveal_strlit("<blockquote>\n");
        reveal_strlit("</blockquote>\n");
        reveal_strlit("<pre>\n");
        reveal_strlit("</pre>\n");
        reveal_strlit("<p>\n");
        reveal_strlit("</p>\n");
        reveal_strlit("\n</code>");
    }
    v
}

/// Make the replacements of `tidy_steps` in `h`, one after the other.
fn tidy_newlines(h: Vec<char>) -> (r: Vec<char>)
    ensures
        r@ == replace_in_turn(h@, tidy_steps()),
{
    let steps = tidy_steps_exec();
    let mut cur = h;
    let mut i: usize = 0;
    while i < steps.len()
        invariant
            i <= steps@.len(),
            steps@.len() == tidy_steps().len(),
            forall|k: int| 0 <= k < steps@.len() ==> (#[trigger] steps@[k]).0@ == tidy_steps()[k].0
                && steps@[k].1@ == tidy_steps()[k].1 && steps@[k].0@.len() > 0,
            cur@ == replace_in_turn(h@, tidy_steps().take(i as int)),
        decreases steps@.len() - i,
    {
        let (p, r) = &steps[i];
        assert(tidy_steps().take(i + 1).drop_last() =~= tidy_steps().take(i as int));
        cur = replace_all_exec(&cur, p, r);
        i += 1;
    }
    assert(tidy_steps().take(i as int) =~= tidy_steps());
    cur
}

/// Turns markdown into HTML.
pub struct MarkdownHTMLParser {}

impl MarkdownHTMLParser {
    /// The tidied HTML for the HTML `html` that markdown compiled to: a
    /// single paragraph loses its `<p>` and `</p>\n`, and the line breaks
    /// after block tags go. HTML that starts as a single paragraph but is too
    /// short to hold both tags is refused.
    pub fn tidy_html(html: Vec<char>) -> (r: Result<Vec<char>, MarkdownParseError>)
        ensures
            match r {
                Ok(v) => tidy_markdown_html(html@) == Ok::<Seq<char>, MarkdownParseError>(v@),
                Err(e) => tidy_markdown_html(html@) == Err::<Seq<char>, MarkdownParseError>(e),
            },
    {
        let p_open = chars_of("<p>");
        proof {
            reveal_strlit("<p>");
        }
        let single = matches_at(&html, 0, &p_open) && count_matches_exec(&html, &p_open) == 1;
        assert(html@.skip(0) =~= html@);
        let unwrapped = if single {
            if html.len() < 8 {
                return Err(MarkdownParseError::InvalidMarkdownError);
            }
            let mut inner: Vec<char> = Vec::new();
            let end = html.len() - 5;
            let mut i: usize = 3;
            while i < end
                invariant
                    3 <= i <= end,
                    end == html@.len() - 5,
                    inner@ == html@.subrange(3, i as int),
                decreases end - i,
            {
                inner.push(html[i]);
                i += 1;
                assert(inner@ =~= html@.subrange(3, i as int));
            }
            inner
        } else {
            html
        };
        Ok(tidy_newlines(unwrapped))
    }

    /// The HTML for `markdown`, parsed with strikethrough on and soft line
    /// breaks written as hard ones (`<br />`), with its single paragraph
    /// unwrapped and the line breaks after block tags taken out.
    pub fn to_html(markdown: &Vec<char>) -> (r: Result<Vec<char>, MarkdownParseError>)
        ensures
            match r {
                Ok(v) => tidy_markdown_html(cmark_html(markdown@, STRIKETHROUGH_OPTION, true)) == Ok::<
                    Seq<char>,
                    MarkdownParseError,
                >(v@),
                Err(e) => tidy_markdown_html(cmark_html(markdown@, STRIKETHROUGH_OPTION, true)) == Err::<
                    Seq<char>,
                    MarkdownParseError,
                >(e),
            },
    {
        let html = compile_markdown(markdown, STRIKETHROUGH_OPTION, true);
        Self::tidy_html(html)
    }
}

} // verus!

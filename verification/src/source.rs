//! Documents: their kinds, and the files that a viewer makes of them.
//!
//! A Typst document is compiled into one SVG file per page, in a directory for temporary files. The
//! names of the files carry the name of the document and the number of the process, so that viewers
//! of the same document do not get into each other's way.
use crate::text;
use crate::text::{ascii_lower, chars_of, is_text, push_decimal};
use vstd::prelude::*;
use vstd::slice::slice_subrange;

verus! {

/// A kind of document.
#[derive(Clone, Copy, Debug, PartialEq, Eq, Structural)]
pub enum DocumentKind {
    Svg,
    Typst,
    Markdown,
    Pdf,
}

/// The kind of the documents with a file name extension, in any case.
pub open spec fn kind_of(extension: Seq<char>) -> Option<DocumentKind> {
    let e = text::lowered(extension);
    if e == "typ"@ {
        Some(DocumentKind::Typst)
    } else if e == "md"@ || e == "markdown"@ {
        Some(DocumentKind::Markdown)
    } else if e == "svg"@ {
        Some(DocumentKind::Svg)
    } else if e == "pdf"@ {
        Some(DocumentKind::Pdf)
    } else {
        None
    }
}

/// The kind of the documents with a file name extension.
pub fn document_kind(extension: &str) -> (r: Option<DocumentKind>)
    ensures
        r == kind_of(extension@),
{
    let cs = chars_of(extension);
    let low = ascii_lower(cs.as_slice());
    let e = low.as_slice();
    if is_text(e, "typ") {
        Some(DocumentKind::Typst)
    } else if is_text(e, "md") || is_text(e, "markdown") {
        Some(DocumentKind::Markdown)
    } else if is_text(e, "svg") {
        Some(DocumentKind::Svg)
    } else if is_text(e, "pdf") {
        Some(DocumentKind::Pdf)
    } else {
        None
    }
}

/// Whether documents of a kind can be written as PDF: those that are compiled.
pub fn can_export(kind: DocumentKind) -> (r: bool)
    ensures
        r == (kind == DocumentKind::Typst || kind == DocumentKind::Markdown),
{
    match kind {
        DocumentKind::Typst | DocumentKind::Markdown => true,
        DocumentKind::Svg | DocumentKind::Pdf => false,
    }
}

/// The index of the page with a number, counted from 1, in a document of `pages` pages. Zero is
/// taken as the first page; `None` where there is no such page.
pub fn page_index(number: usize, pages: usize) -> (r: Option<usize>)
    ensures
        r is Some == (number <= pages && pages > 0),
        r matches Some(i) ==> i == (if number == 0 {
            0
        } else {
            number - 1
        }) && i < pages,
{
    let i: usize = if number == 0 {
        0
    } else {
        number - 1
    };
    if i < pages {
        Some(i)
    } else {
        None
    }
}

// ---------------------------------------------------------------------------
// File names.

/// What the names of the files for all viewers of a document begin with.
pub open spec fn document_prefix(stem: Seq<char>) -> Seq<char> {
    "vecview-"@ + stem + "-"@
}

/// What the names of all files of one viewer begin with.
pub open spec fn viewer_prefix(stem: Seq<char>, tag: nat) -> Seq<char> {
    document_prefix(stem) + text::decimal(tag) + "-"@
}

/// The name of the file of a page, counted from zero.
pub open spec fn page_name(stem: Seq<char>, tag: nat, page: nat) -> Seq<char> {
    viewer_prefix(stem, tag) + text::decimal(page + 1) + ".svg"@
}

/// What the name of the file of a page ends with.
pub open spec fn page_ending(page: nat) -> Seq<char> {
    text::decimal(page + 1) + ".svg"@
}

/// Whether a file name is that of a file of a viewer: its prefix, and no hyphen behind it. With a
/// hyphen behind it the file belongs to a document with a longer name.
pub open spec fn is_viewer_file(stem: Seq<char>, tag: nat, name: Seq<char>) -> bool {
    &&& text::begins_with(name, viewer_prefix(stem, tag))
    &&& !name.skip(viewer_prefix(stem, tag).len() as int).contains('-')
}

/// Whether a file name is that of a page of a viewer.
pub open spec fn is_page_name(stem: Seq<char>, tag: nat, name: Seq<char>) -> bool {
    is_viewer_file(stem, tag, name) && text::finishes_with(name, ".svg"@)
}

/// Whether there is a hyphen in `s` at `from` or behind it.
fn has_hyphen(s: &Vec<char>, from: usize) -> (r: bool)
    requires
        from <= s@.len(),
    ensures
        r == s@.skip(from as int).contains('-'),
{
    let n: usize = s.len();
    for i in from..n
        invariant
            from <= n,
            n == s@.len(),
            forall|k: int| from <= k < i ==> s@[k] != '-',
    {
        if s[i] == '-' {
            assert(s@.skip(from as int)[i - from] == '-');
            return true;
        }
    }
    assert forall|k: int| 0 <= k < n - from implies #[trigger] s@.skip(from as int)[k] != '-' by {
        assert(s@.skip(from as int)[k] == s@[from + k]);
    }
    false
}

fn push_viewer_prefix(out: &mut String, stem: &str, tag: u32)
    ensures
        final(out)@ == old(out)@ + viewer_prefix(stem@, tag as nat),
{
    out.append("vecview-");
    out.append(stem);
    out.append("-");
    push_decimal(out, tag as u64);
    out.append("-");
    assert(out@ =~= old(out)@ + viewer_prefix(stem@, tag as nat));
}

/// The name of the file of a page, counted from zero.
pub fn page_file_name(stem: &str, tag: u32, page: usize) -> (r: String)
    requires
        page < u64::MAX,
    ensures
        r@ == page_name(stem@, tag as nat, page as nat),
{
    let mut out = String::new();
    push_viewer_prefix(&mut out, stem, tag);
    push_decimal(&mut out, page as u64 + 1);
    out.append(".svg");
    assert(out@ =~= page_name(stem@, tag as nat, page as nat));
    out
}

/// The name of a file of a viewer that is no page: its prefix, with `rest` behind it. The viewer
/// knows the file by it where `rest` has no hyphen in it.
pub fn viewer_file_name(stem: &str, tag: u32, rest: &str) -> (r: String)
    ensures
        r@ == viewer_prefix(stem@, tag as nat) + rest@,
{
    let mut out = String::new();
    push_viewer_prefix(&mut out, stem, tag);
    out.append(rest);
    assert(out@ =~= viewer_prefix(stem@, tag as nat) + rest@);
    out
}

/// What the names of the files of one drawing without a terminal begin with.
pub open spec fn drawing_prefix(stem: Seq<char>, tag: nat) -> Seq<char> {
    "vv-render-"@ + stem + "-"@ + text::decimal(tag) + "-"@
}

/// Whether a file name is that of a file of one drawing without a terminal: its prefix, and no
/// hyphen behind it.
pub open spec fn is_drawing_file(stem: Seq<char>, tag: nat, name: Seq<char>) -> bool {
    &&& text::begins_with(name, drawing_prefix(stem, tag))
    &&& !name.skip(drawing_prefix(stem, tag).len() as int).contains('-')
}

/// Whether a file name is that of a file of one drawing without a terminal, which is to be removed at
/// its end.
pub fn owns_drawing(stem: &str, tag: u32, name: &str) -> (r: bool)
    ensures
        r == is_drawing_file(stem@, tag as nat, name@),
{
    let n = chars_of(name);
    let prefix = drawing_file_name(stem, tag, "");
    proof {
        reveal_strlit("");
    }
    assert(prefix@ =~= drawing_prefix(stem@, tag as nat));
    let p = chars_of(prefix.as_str());
    text::starts_with(n.as_slice(), p.as_slice()) && !has_hyphen(&n, p.len())
}

/// The name of a file of one drawing without a terminal: its prefix, with `rest` behind it.
pub fn drawing_file_name(stem: &str, tag: u32, rest: &str) -> (r: String)
    ensures
        r@ == drawing_prefix(stem@, tag as nat) + rest@,
{
    let mut out = "vv-render-".to_owned();
    out.append(stem);
    out.append("-");
    push_decimal(&mut out, tag as u64);
    out.append("-");
    out.append(rest);
    assert(out@ =~= drawing_prefix(stem@, tag as nat) + rest@);
    out
}

/// The name of the file that a Markdown document is wrapped in to be exported.
pub fn export_file_name(stem: &str, tag: u32) -> (r: String)
    ensures
        r@ == "vv-export-"@ + stem@ + "-"@ + text::decimal(tag as nat) + ".typ"@,
{
    let mut out = "vv-export-".to_owned();
    out.append(stem);
    out.append("-");
    push_decimal(&mut out, tag as u64);
    out.append(".typ");
    out
}

/// Whether a file name is that of a page of a viewer.
pub fn owns_page(stem: &str, tag: u32, name: &str) -> (r: bool)
    ensures
        r == is_page_name(stem@, tag as nat, name@),
{
    let n = chars_of(name);
    let mut prefix = String::new();
    push_viewer_prefix(&mut prefix, stem, tag);
    assert(prefix@ =~= viewer_prefix(stem@, tag as nat));
    let p = chars_of(prefix.as_str());
    let e = chars_of(".svg");
    text::starts_with(n.as_slice(), p.as_slice()) && !has_hyphen(&n, p.len()) && text::ends_with(
        n.as_slice(),
        e.as_slice(),
    )
}

/// Whether a file name is that of a file of a viewer, which is to be removed at its end.
pub fn owns_file(stem: &str, tag: u32, name: &str) -> (r: bool)
    ensures
        r == is_viewer_file(stem@, tag as nat, name@),
{
    let n = chars_of(name);
    let mut prefix = String::new();
    push_viewer_prefix(&mut prefix, stem, tag);
    assert(prefix@ =~= viewer_prefix(stem@, tag as nat));
    let p = chars_of(prefix.as_str());
    text::starts_with(n.as_slice(), p.as_slice()) && !has_hyphen(&n, p.len())
}

/// The digits that a text begins with.
pub open spec fn leading_digits(s: Seq<char>) -> Seq<char>
    decreases s.len(),
{
    if s.len() > 0 && text::is_digit(s[0]) {
        seq![s[0]] + leading_digits(s.drop_first())
    } else {
        seq![]
    }
}

/// Whether `s` is a hyphen with no other hyphen behind it.
pub open spec fn is_last_part(s: Seq<char>) -> bool {
    s.len() > 0 && s[0] == '-' && !s.skip(1).contains('-')
}

/// The number of the process that made a file for a document, by the name of the file. Behind the
/// number there is one hyphen: with a second one the file belongs to a document with a longer name.
pub open spec fn maker_of(stem: Seq<char>, name: Seq<char>) -> Option<nat> {
    let rest = name.skip(document_prefix(stem).len() as int);
    let digits = leading_digits(rest);
    if text::begins_with(name, document_prefix(stem)) && is_last_part(
        rest.skip(digits.len() as int),
    ) {
        text::number(digits, u32::MAX as nat)
    } else {
        None
    }
}

/// The number of the process that made a file for a document, by the name of the file. What a
/// process that has ended left behind can be removed.
pub fn file_maker(stem: &str, name: &str) -> (r: Option<u32>)
    ensures
        r is Some == maker_of(stem@, name@) is Some,
        r matches Some(pid) ==> maker_of(stem@, name@) == Some(pid as nat),
{
    let n = chars_of(name);
    let mut prefix = "vecview-".to_owned();
    prefix.append(stem);
    prefix.append("-");
    assert(prefix@ =~= document_prefix(stem@));
    let p = chars_of(prefix.as_str());
    if !text::starts_with(n.as_slice(), p.as_slice()) {
        return None;
    }
    let start: usize = p.len();
    let total: usize = n.len();
    let mut end: usize = start;
    let ghost rest = n@.skip(start as int);
    assert(n@.subrange(start as int, start as int) + leading_digits(rest) =~= leading_digits(rest));
    while end < total && n[end] >= '0' && n[end] <= '9'
        invariant
            start <= end <= total,
            total == n@.len(),
            n@.subrange(start as int, end as int) + leading_digits(n@.skip(end as int))
                == leading_digits(rest),
        decreases total - end,
    {
        assert(n@.skip(end as int).drop_first() =~= n@.skip(end + 1));
        assert(n@.subrange(start as int, end + 1) =~= n@.subrange(start as int, end as int).push(
            n@[end as int],
        ));
        assert(n@.subrange(start as int, end + 1) + leading_digits(n@.skip(end + 1))
            =~= n@.subrange(start as int, end as int) + leading_digits(n@.skip(end as int)));
        end += 1;
    }
    let digits = slice_subrange(n.as_slice(), start, end);
    assert(digits@ =~= leading_digits(rest));
    let ghost tail = rest.skip(digits@.len() as int);
    assert(tail =~= n@.skip(end as int));
    if end == total || n[end] != '-' {
        return None;
    }
    assert(tail.skip(1) =~= n@.skip(end + 1));
    if has_hyphen(&n, end + 1) {
        return None;
    }
    match text::parse_number(digits, u32::MAX as u64) {
        Some(pid) => Some(pid as u32),
        None => None,
    }
}

proof fn lemma_begins(a: Seq<char>, b: Seq<char>)
    ensures
        text::begins_with(a + b, a),
{
    assert((a + b).subrange(0, a.len() as int) =~= a);
}

/// A viewer knows the files of its own pages, and different pages have different files. What the
/// name of such a file ends with has no hyphen in it.
pub proof fn law_pages_have_files(stem: Seq<char>, tag: nat, p: nat, q: nat)
    ensures
        is_page_name(stem, tag, page_name(stem, tag, p)),
        page_name(stem, tag, p) == page_name(stem, tag, q) ==> p == q,
        page_name(stem, tag, p) == viewer_prefix(stem, tag) + page_ending(p),
        !page_ending(p).contains('-'),
{
    reveal_strlit(".svg");
    text::law_decimal_reads_back(p + 1);
    assert forall|i: int| 0 <= i < page_ending(p).len() implies #[trigger] page_ending(p)[i]
        != '-' by {
        if i < text::decimal(p + 1).len() {
            assert(text::is_digit(text::decimal(p + 1)[i]));
        } else {
            assert(page_ending(p)[i] == ".svg"@[i - text::decimal(p + 1).len()]);
        }
    }
    assert(page_name(stem, tag, p) =~= viewer_prefix(stem, tag) + page_ending(p));
    assert(page_name(stem, tag, p).skip(viewer_prefix(stem, tag).len() as int) =~= page_ending(p));
    let prefix = viewer_prefix(stem, tag);
    let a = text::decimal(p + 1);
    let b = text::decimal(q + 1);
    lemma_begins(prefix, a + ".svg"@);
    assert(prefix + (a + ".svg"@) =~= page_name(stem, tag, p));
    let name = page_name(stem, tag, p);
    let cut = name.len() - ".svg"@.len();
    assert(name.subrange(cut, cut + ".svg"@.len()) =~= ".svg"@);
    if page_name(stem, tag, p) == page_name(stem, tag, q) {
        assert(a.len() == b.len());
        assert(name.subrange(prefix.len() as int, (prefix.len() + a.len()) as int) =~= a);
        assert(page_name(stem, tag, q).subrange(prefix.len() as int, (prefix.len() + b.len()) as int) =~= b);
        text::law_decimal_injective(p + 1, q + 1);
    }
}

/// The parts of a file name are told apart from its end: where it is put together twice of a name, a
/// hyphen, digits, a hyphen and what has no hyphen, both are put together of the same parts.
proof fn lemma_parts(
    stem: Seq<char>,
    digits: Seq<char>,
    rest: Seq<char>,
    other_stem: Seq<char>,
    other_digits: Seq<char>,
    other_rest: Seq<char>,
)
    requires
        text::all_digits(digits),
        text::all_digits(other_digits),
        !rest.contains('-'),
        !other_rest.contains('-'),
        stem + "-"@ + digits + "-"@ + rest == other_stem + "-"@ + other_digits + "-"@ + other_rest,
    ensures
        stem == other_stem,
        digits == other_digits,
        rest == other_rest,
{
    reveal_strlit("-");
    let a = stem + "-"@ + digits + "-"@ + rest;
    let b = other_stem + "-"@ + other_digits + "-"@ + other_rest;
    let (n, m) = (stem.len() as int, other_stem.len() as int);
    let (i, j) = (n + 1 + digits.len() as int, m + 1 + other_digits.len() as int);
    assert(a == b);
    assert(a.len() == i + 1 + rest.len() && b.len() == j + 1 + other_rest.len());
    assert(a[i] == '-' && a[n] == '-');
    assert(b[j] == '-' && b[m] == '-');
    if i < j {
        assert(a[j] == rest[j - i - 1]);
        assert(false);
    }
    if j < i {
        assert(b[i] == other_rest[i - j - 1]);
        assert(false);
    }
    if n < m {
        assert(a[m] == digits[m - n - 1]);
        assert(text::is_digit(digits[m - n - 1]));
        assert(false);
    }
    if m < n {
        assert(b[n] == other_digits[n - m - 1]);
        assert(text::is_digit(other_digits[n - m - 1]));
        assert(false);
    }
    assert(a.subrange(0, n) =~= stem);
    assert(b.subrange(0, n) =~= other_stem);
    assert(a.subrange(n + 1, i) =~= digits);
    assert(b.subrange(n + 1, i) =~= other_digits);
    assert(a.skip(i + 1) =~= rest);
    assert(b.skip(i + 1) =~= other_rest);
}

proof fn lemma_leading_digits_begin(s: Seq<char>)
    ensures
        text::all_digits(leading_digits(s)),
        leading_digits(s).len() <= s.len(),
        s.take(leading_digits(s).len() as int) == leading_digits(s),
    decreases s.len(),
{
    let d = leading_digits(s);
    if s.len() > 0 && text::is_digit(s[0]) {
        let t = s.drop_first();
        lemma_leading_digits_begin(t);
        let e = leading_digits(t);
        assert forall|i: int| 0 <= i < d.len() implies text::is_digit(#[trigger] d[i]) by {
            if i > 0 {
                assert(d[i] == e[i - 1]);
            }
        }
        assert forall|i: int| 0 <= i < d.len() implies s.take(d.len() as int)[i] == d[i] by {
            if i > 0 {
                assert(t.take(e.len() as int)[i - 1] == e[i - 1]);
            }
        }
        assert(s.take(d.len() as int) =~= d);
    } else {
        assert(s.take(0) =~= d);
    }
}

proof fn lemma_leading_digits(d: Seq<char>, rest: Seq<char>)
    requires
        text::all_digits(d),
        rest.len() > 0,
        !text::is_digit(rest[0]),
    ensures
        leading_digits(d + rest) == d,
    decreases d.len(),
{
    if d.len() == 0 {
        assert(d + rest =~= rest);
        assert(leading_digits(rest) =~= d);
    } else {
        assert(text::is_digit(d[0]));
        assert((d + rest).drop_first() =~= d.drop_first() + rest);
        assert forall|i: int| 0 <= i < d.drop_first().len() implies text::is_digit(
            #[trigger] d.drop_first()[i],
        ) by {
            assert(text::is_digit(d[i + 1]));
        }
        lemma_leading_digits(d.drop_first(), rest);
        assert(seq![d[0]] + d.drop_first() =~= d);
    }
}

/// The name of a file made by the process with the number in `digits`.
proof fn lemma_maker_of(stem: Seq<char>, digits: Seq<char>, rest: Seq<char>)
    requires
        text::all_digits(digits),
        !rest.contains('-'),
    ensures
        maker_of(stem, document_prefix(stem) + (digits + ("-"@ + rest))) == text::number(
            digits,
            u32::MAX as nat,
        ),
{
    reveal_strlit("-");
    let d = document_prefix(stem);
    let tail = "-"@ + rest;
    let name = d + (digits + tail);
    lemma_begins(d, digits + tail);
    assert(name.skip(d.len() as int) =~= digits + tail);
    lemma_leading_digits(digits, tail);
    assert((digits + tail).skip(digits.len() as int) =~= tail);
    assert(tail.skip(1) =~= rest);
}

/// What a name is put together of that says who made the file.
proof fn lemma_made(stem: Seq<char>, name: Seq<char>) -> (r: (Seq<char>, Seq<char>))
    requires
        maker_of(stem, name) is Some,
    ensures
        text::all_digits(r.0),
        !r.1.contains('-'),
        name == document_prefix(stem) + (r.0 + ("-"@ + r.1)),
{
    reveal_strlit("-");
    let d = document_prefix(stem);
    let after = name.skip(d.len() as int);
    let digits = leading_digits(after);
    lemma_leading_digits_begin(after);
    let tail = after.skip(digits.len() as int);
    let rest = tail.skip(1);
    assert(tail =~= "-"@ + rest);
    assert(after =~= digits + tail);
    assert(name.subrange(0, d.len() as int) == d);
    assert(name =~= d + after);
    (digits, rest)
}

proof fn lemma_number_of_decimal(n: nat)
    ensures
        text::number(text::decimal(n), u32::MAX as nat) == (if n <= u32::MAX {
            Some(n)
        } else {
            None
        }),
{
    text::law_decimal_reads_back(n);
    let t = text::decimal(n);
    assert(text::is_digit(t[0]));
    assert(text::unsigned_digits(t) == t);
}

/// A viewer knows its own files, and the name of a file says which process made it. What the name
/// ends with, `rest`, has no hyphen in it.
pub proof fn law_files_name_their_maker(stem: Seq<char>, tag: nat, rest: Seq<char>)
    requires
        !rest.contains('-'),
    ensures
        is_viewer_file(stem, tag, viewer_prefix(stem, tag) + rest),
        maker_of(stem, viewer_prefix(stem, tag) + rest) == (if tag <= u32::MAX {
            Some(tag)
        } else {
            None
        }),
{
    let t = text::decimal(tag);
    let prefix = viewer_prefix(stem, tag);
    text::law_decimal_reads_back(tag);
    lemma_begins(prefix, rest);
    assert((prefix + rest).skip(prefix.len() as int) =~= rest);
    assert(prefix + rest =~= document_prefix(stem) + (t + ("-"@ + rest)));
    lemma_maker_of(stem, t, rest);
    lemma_number_of_decimal(tag);
}

/// Drawings without a terminal have no file in common: a file that one of them writes is taken by it
/// for its own, and by no other. What the name of a file ends with, `rest`, has no hyphen in it.
pub proof fn law_drawings_have_their_own_files(
    stem: Seq<char>,
    tag: nat,
    other_stem: Seq<char>,
    other: nat,
    rest: Seq<char>,
)
    requires
        !rest.contains('-'),
    ensures
        is_drawing_file(stem, tag, drawing_prefix(other_stem, other) + rest) <==> stem
            == other_stem && tag == other,
{
    reveal_strlit("vv-render-");
    text::law_decimal_reads_back(tag);
    text::law_decimal_reads_back(other);
    let name = drawing_prefix(other_stem, other) + rest;
    let prefix = drawing_prefix(stem, tag);
    let u = text::decimal(other);
    assert(name.skip(10) =~= other_stem + "-"@ + u + "-"@ + rest);
    lemma_begins(drawing_prefix(other_stem, other), rest);
    assert(name.skip(drawing_prefix(other_stem, other).len() as int) =~= rest);
    if is_drawing_file(stem, tag, name) {
        let end = name.skip(prefix.len() as int);
        assert(name.subrange(0, prefix.len() as int) == prefix);
        assert(name =~= prefix + end);
        assert(name.skip(10) =~= stem + "-"@ + text::decimal(tag) + "-"@ + end);
        lemma_parts(stem, text::decimal(tag), end, other_stem, u, rest);
        text::law_decimal_injective(tag, other);
    }
}

/// Viewers have no file in common: a file that one of them writes is not taken by another for its
/// own, be it one of the same document or of another, and the process that is taken for its maker is
/// the one that wrote it. What the name of a file ends with, `rest`, has no hyphen in it.
pub proof fn law_viewers_have_their_own_files(
    stem: Seq<char>,
    tag: nat,
    other_stem: Seq<char>,
    other: nat,
    rest: Seq<char>,
)
    requires
        !rest.contains('-'),
    ensures
        is_viewer_file(stem, tag, viewer_prefix(other_stem, other) + rest) ==> stem == other_stem
            && tag == other,
        maker_of(stem, viewer_prefix(other_stem, other) + rest) matches Some(pid) ==> stem
            == other_stem && pid == other,
{
    reveal_strlit("vecview-");
    text::law_decimal_reads_back(tag);
    text::law_decimal_reads_back(other);
    let name = viewer_prefix(other_stem, other) + rest;
    let u = text::decimal(other);
    assert(name.skip(8) =~= other_stem + "-"@ + u + "-"@ + rest);
    if is_viewer_file(stem, tag, name) {
        let prefix = viewer_prefix(stem, tag);
        let end = name.skip(prefix.len() as int);
        assert(name.subrange(0, prefix.len() as int) == prefix);
        assert(name =~= prefix + end);
        assert(name.skip(8) =~= stem + "-"@ + text::decimal(tag) + "-"@ + end);
        lemma_parts(stem, text::decimal(tag), end, other_stem, u, rest);
        text::law_decimal_injective(tag, other);
    }
    if maker_of(stem, name) is Some {
        let (digits, end) = lemma_made(stem, name);
        assert(name.skip(8) =~= stem + "-"@ + digits + "-"@ + end);
        lemma_parts(stem, digits, end, other_stem, u, rest);
        law_files_name_their_maker(stem, other, rest);
    }
}

// ---------------------------------------------------------------------------
// What is shown.

/// Where the pages come from. `P` is the type of a path.
pub enum Source<P> {
    /// One SVG file.
    Svg(P),
    /// The files that the compiler makes in `dir` for the viewer with the process number `tag`.
    Typst { dir: P, stem: String, tag: u32 },
    /// One PDF file, with all its pages.
    Pdf { pdf: P },
}

/// The file of a page: a file as it is, or a name in a directory.
pub enum PageFile<P> {
    File(P),
    In { dir: P, name: String },
}

/// A directory: as it is, or the one that a file is in.
pub enum WatchedDir<P> {
    Dir(P),
    Of(P),
}

impl<P: Copy> Source<P> {
    /// The file of a page, counted from zero.
    pub fn page_path(&self, page: usize) -> (r: PageFile<P>)
        requires
            page < u64::MAX,
        ensures
            (match *self {
                Source::Svg(p) => r == PageFile::<P>::File(p),
                Source::Pdf { pdf } => r == PageFile::<P>::File(pdf),
                Source::Typst { dir, stem, tag } => r matches PageFile::In { dir: d, name } && d
                    == dir && name@ == page_name(stem@, tag as nat, page as nat),
            }),
    {
        match self {
            Source::Svg(p) => PageFile::File(*p),
            Source::Pdf { pdf } => PageFile::File(*pdf),
            Source::Typst { dir, stem, tag } => PageFile::In {
                dir: *dir,
                name: page_file_name(stem.as_str(), *tag, page),
            },
        }
    }

    /// The directory in which changes are watched for.
    pub fn watch_dir(&self) -> (r: WatchedDir<P>)
        ensures
            r == (match *self {
                Source::Svg(p) => WatchedDir::Of(p),
                Source::Pdf { pdf } => WatchedDir::Of(pdf),
                Source::Typst { dir, .. } => WatchedDir::Dir(dir),
            }),
    {
        match self {
            Source::Svg(p) => WatchedDir::Of(*p),
            Source::Pdf { pdf } => WatchedDir::Of(*pdf),
            Source::Typst { dir, .. } => WatchedDir::Dir(*dir),
        }
    }

    /// Whether a file that changed belongs to what is shown. `is_file` says whether it is the one
    /// file of the document, `in_dir` whether it is in the directory of the pages, and `name` is its
    /// name, where it can be read.
    pub fn owns(&self, is_file: bool, in_dir: bool, name: Option<&str>) -> (r: bool)
        ensures
            r == (match *self {
                Source::Typst { dir, stem, tag } => in_dir && (match name {
                    Some(n) => is_page_name(stem@, tag as nat, n@),
                    None => false,
                }),
                _ => is_file,
            }),
    {
        match self {
            Source::Typst { dir, stem, tag } => in_dir && match name {
                Some(n) => owns_page(stem.as_str(), *tag, n),
                None => false,
            },
            _ => is_file,
        }
    }
}

/// Whether `n` is the number of things before the first that is not there, by what `exists` says.
pub open spec fn counts<F: Fn(usize) -> bool>(exists_at: F, n: int) -> bool {
    &&& 0 <= n <= usize::MAX
    &&& forall|i: usize| i < n ==> #[trigger] call_ensures(exists_at, (i,), true)
    &&& n < usize::MAX ==> call_ensures(exists_at, (n as usize,), false)
}

/// The number of pages of a compiled document: as many as there are files, from the first on without
/// a gap, but at least one. `exists_at` says whether the file of a page, counted from zero, is there.
pub fn compiled_page_count(exists_at: impl Fn(usize) -> bool) -> (r: usize)
    requires
        forall|i: usize| #[trigger] call_requires(exists_at, (i,)),
    ensures
        exists|n: int| #[trigger]
            counts(exists_at, n) && r == (if n < 1 {
                1
            } else {
                n
            }),
{
    let mut n: usize = 0;
    while n < usize::MAX && exists_at(n)
        invariant
            forall|i: usize| #[trigger] call_requires(exists_at, (i,)),
            forall|i: usize| i < n ==> #[trigger] call_ensures(exists_at, (i,), true),
        ensures
            forall|i: usize| i < n ==> #[trigger] call_ensures(exists_at, (i,), true),
            n < usize::MAX ==> call_ensures(exists_at, (n,), false),
        decreases usize::MAX - n,
    {
        n += 1;
    }
    assert(counts(exists_at, n as int));
    if n < 1 {
        1
    } else {
        n
    }
}

/// How much older than the newest page a page must be to be left over from an earlier compilation,
/// in nanoseconds.
pub const STALE_MARGIN: i128 = 1_000_000_000;

/// The latest moment that is told apart, in nanoseconds before or after the Unix epoch.
pub const MOMENT_MAX: i128 = 0x2000_0000_0000_0000_0000_0000_0000_0000;

/// The latest of the times.
pub open spec fn latest(times: Seq<i128>) -> i128
    decreases times.len(),
{
    if times.len() <= 1 {
        times[0]
    } else if times.last() > latest(times.drop_last()) {
        times.last()
    } else {
        latest(times.drop_last())
    }
}

/// Whether a time is so much earlier than the latest that its page is left over.
pub open spec fn is_stale(times: Seq<i128>, i: int) -> bool {
    latest(times) - times[i] > STALE_MARGIN
}

/// Whether the last `n` pages, and no page before them, are to be removed: all of them are left
/// over, and the one before them is not.
pub open spec fn stale_run(times: Seq<i128>, n: int) -> bool {
    &&& 0 <= n <= times.len()
    &&& forall|i: int| times.len() - n <= i < times.len() ==> #[trigger] is_stale(times, i)
    &&& n < times.len() ==> !is_stale(times, times.len() - n - 1)
}

/// How many pages at the end are left over from an earlier compilation, by the times at which the
/// pages were written. One compilation writes all pages within a moment.
pub fn stale_pages(times: &Vec<i128>) -> (r: usize)
    requires
        forall|i: int| 0 <= i < times@.len() ==> -MOMENT_MAX <= #[trigger] times@[i] <= MOMENT_MAX,
    ensures
        stale_run(times@, r as int),
        times@.len() > 0 ==> r < times@.len(),
{
    let total: usize = times.len();
    if total == 0 {
        return 0;
    }
    let mut newest: i128 = times[0];
    let mut i: usize = 1;
    while i < total
        invariant
            1 <= i <= total,
            total == times@.len(),
            newest == latest(times@.take(i as int)),
        decreases total - i,
    {
        assert(times@.take(i + 1).drop_last() =~= times@.take(i as int));
        if times[i] > newest {
            newest = times[i];
        }
        i += 1;
    }
    assert(times@.take(total as int) =~= times@);
    proof {
        law_newest_page_stays(times@);
    }
    let mut n: usize = 0;
    while n < total && newest - times[total - 1 - n] > STALE_MARGIN
        invariant
            n <= total,
            total == times@.len(),
            newest == latest(times@),
            newest <= MOMENT_MAX,
            forall|i: int|
                0 <= i < times@.len() ==> -MOMENT_MAX <= #[trigger] times@[i] <= MOMENT_MAX,
            forall|i: int| total - n <= i < total ==> #[trigger] is_stale(times@, i),
        decreases total - n,
    {
        assert(is_stale(times@, total - 1 - n));
        n += 1;
    }
    assert(stale_run(times@, n as int));
    n
}

/// The newest page is never left over, so that a page stays.
pub proof fn law_newest_page_stays(times: Seq<i128>)
    requires
        times.len() > 0,
    ensures
        exists|i: int| 0 <= i < times.len() && #[trigger] times[i] == latest(times),
        forall|i: int| 0 <= i < times.len() ==> #[trigger] times[i] <= latest(times),
        forall|n: int| #[trigger] stale_run(times, n) ==> n < times.len(),
{
    lemma_latest(times);
    let i = choose|i: int| 0 <= i < times.len() && #[trigger] times[i] == latest(times);
    assert(!is_stale(times, i));
}

proof fn lemma_latest(times: Seq<i128>)
    requires
        times.len() > 0,
    ensures
        exists|i: int| 0 <= i < times.len() && #[trigger] times[i] == latest(times),
        forall|i: int| 0 <= i < times.len() ==> #[trigger] times[i] <= latest(times),
    decreases times.len(),
{
    if times.len() == 1 {
        assert(times[0] == latest(times));
    } else {
        let rest = times.drop_last();
        lemma_latest(rest);
        let i = choose|i: int| 0 <= i < rest.len() && #[trigger] rest[i] == latest(rest);
        assert(times[i] == rest[i]);
        assert(times[times.len() - 1] == times.last());
        assert forall|k: int| 0 <= k < times.len() implies #[trigger] times[k] <= latest(times) by {
            if k < rest.len() {
                assert(rest[k] == times[k]);
            }
        }
    }
}

/// Pages that were written within a moment of each other all stay.
pub proof fn law_one_compilation_stays(times: Seq<i128>, n: int)
    requires
        stale_run(times, n),
        forall|i: int, k: int|
            0 <= i < times.len() && 0 <= k < times.len() ==> #[trigger] times[i]
                - #[trigger] times[k] <= STALE_MARGIN,
    ensures
        n == 0,
{
    if n > 0 {
        lemma_latest(times);
        let i = choose|i: int| 0 <= i < times.len() && #[trigger] times[i] == latest(times);
        let k = times.len() - 1;
        assert(is_stale(times, k));
        assert(times[i] - times[k] <= STALE_MARGIN);
    }
}

/// Which extensions a kind of document has, in any case of letters. Every other extension has no kind.
pub proof fn law_extensions_of_a_kind(extension: Seq<char>)
    ensures
        ({
            let e = text::lowered(extension);
            &&& kind_of(extension) == Some(DocumentKind::Typst) <==> e == "typ"@
            &&& kind_of(extension) == Some(DocumentKind::Markdown) <==> e == "md"@ || e
                == "markdown"@
            &&& kind_of(extension) == Some(DocumentKind::Svg) <==> e == "svg"@
            &&& kind_of(extension) == Some(DocumentKind::Pdf) <==> e == "pdf"@
        }),
{
    reveal_strlit("typ");
    reveal_strlit("md");
    reveal_strlit("markdown");
    reveal_strlit("svg");
    reveal_strlit("pdf");
    assert("typ"@[0] == 't' && "svg"@[0] == 's' && "pdf"@[0] == 'p');
    assert("md"@.len() == 2 && "markdown"@.len() == 8 && "typ"@.len() == 3);
}

/// What the names of files are made of: the name of the viewer, the document, the process and the
/// page, which is counted from one.
pub proof fn law_file_names_are_made_of(stem: Seq<char>, tag: nat, page: nat)
    ensures
        page_name(stem, tag, page) == "vecview-"@ + stem + "-"@ + text::decimal(tag) + "-"@
            + text::decimal(page + 1) + ".svg"@,
        viewer_prefix(stem, tag) == "vecview-"@ + stem + "-"@ + text::decimal(tag) + "-"@,
        drawing_prefix(stem, tag) == "vv-render-"@ + stem + "-"@ + text::decimal(tag) + "-"@,
{
}

/// A file is one of a viewer exactly if its name is the prefix of the viewer and something without a
/// hyphen, and it is a page if besides it ends with `.svg`.
pub proof fn law_which_files_are_of_a_viewer(stem: Seq<char>, tag: nat, rest: Seq<char>, name: Seq<char>)
    ensures
        is_viewer_file(stem, tag, viewer_prefix(stem, tag) + rest) <==> !rest.contains('-'),
        is_viewer_file(stem, tag, name) ==> exists|end: Seq<char>|
            name == #[trigger] (viewer_prefix(stem, tag) + end),
        is_page_name(stem, tag, viewer_prefix(stem, tag) + rest + ".svg"@) <==> !rest.contains('-'),
        is_page_name(stem, tag, name) ==> exists|start: Seq<char>|
            name == #[trigger] (start + ".svg"@),
{
    let p = viewer_prefix(stem, tag);
    lemma_behind_prefix(p, rest);
    if is_viewer_file(stem, tag, name) {
        lemma_has_prefix(p, name);
    }
    if is_page_name(stem, tag, name) {
        text::law_part_of_a_text(name, ".svg"@);
    }
}

proof fn lemma_has_prefix(p: Seq<char>, name: Seq<char>)
    requires
        text::begins_with(name, p),
    ensures
        name == p + name.skip(p.len() as int),
{
    let n = p.len() as int;
    assert(name =~= name.subrange(0, n) + name.skip(n));
}

proof fn lemma_behind_prefix(p: Seq<char>, rest: Seq<char>)
    ensures
        text::begins_with(p + rest, p),
        (p + rest).skip(p.len() as int) == rest,
        text::begins_with(p + rest + ".svg"@, p),
        (p + rest + ".svg"@).skip(p.len() as int).contains('-') <==> rest.contains('-'),
        text::finishes_with(p + rest + ".svg"@, ".svg"@),
{
    reveal_strlit(".svg");
    let n = p.len() as int;
    lemma_begins(p, rest);
    assert((p + rest).skip(n) =~= rest);
    let end = rest + ".svg"@;
    let whole = p + rest + ".svg"@;
    assert(whole =~= p + end);
    lemma_begins(p, end);
    assert(whole.skip(n) =~= end);
    if rest.contains('-') {
        let i = choose|i: int| 0 <= i < rest.len() && rest[i] == '-';
        assert(end[i] == '-');
    }
    if end.contains('-') {
        let i = choose|i: int| 0 <= i < end.len() && end[i] == '-';
        if i < rest.len() {
            assert(rest[i] == '-');
        } else {
            assert(".svg"@[i - rest.len()] == '-');
        }
    }
    let cut = whole.len() - 4;
    assert(whole.subrange(cut, cut + 4) =~= ".svg"@);
}

/// A page at the end is left over if it is more than a second older than the newest page, and the
/// last page that stays is not.
pub proof fn law_left_over_pages_are_old(times: Seq<i128>, n: int, newest: int, i: int)
    requires
        stale_run(times, n),
        0 <= newest < times.len(),
        forall|k: int| 0 <= k < times.len() ==> #[trigger] times[k] <= times[newest],
        0 <= i < times.len(),
    ensures
        i >= times.len() - n ==> times[newest] - times[i] > 1_000_000_000,
        i == times.len() - n - 1 ==> times[newest] - times[i] <= 1_000_000_000,
{
    lemma_latest(times);
    let k = choose|k: int| 0 <= k < times.len() && #[trigger] times[k] == latest(times);
    assert(times[k] <= times[newest]);
    assert(times[newest] <= latest(times));
    if i >= times.len() - n {
        assert(is_stale(times, i));
    }
}

} // verus!

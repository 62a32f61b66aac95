//! What is handed to the Typst compiler, and what it says.
use crate::text;
use crate::text::{ascii_lower, chars_of, is_text, push_chars, string_of, trim};
use vstd::prelude::*;
use vstd::slice::slice_subrange;

verus! {

// ---------------------------------------------------------------------------
// Markdown.

/// `s` as it is written between the quotation marks of a string: every backslash and every quotation
/// mark with a backslash before it.
pub open spec fn quoted(s: Seq<char>) -> Seq<char>
    decreases s.len(),
{
    if s.len() == 0 {
        seq![]
    } else if s.last() == '\\' || s.last() == '"' {
        quoted(s.drop_last()).push('\\').push(s.last())
    } else {
        quoted(s.drop_last()).push(s.last())
    }
}

/// The string that is written in front of the closing quotation mark, and what follows the mark. `None`
/// where there is no closing quotation mark.
pub open spec fn read_string(s: Seq<char>) -> Option<(Seq<char>, Seq<char>)>
    decreases s.len(),
{
    if s.len() == 0 {
        None
    } else if s[0] == '"' {
        Some((seq![], s.skip(1)))
    } else if s[0] == '\\' {
        if s.len() < 2 {
            None
        } else {
            match read_string(s.skip(2)) {
                Some((t, rest)) => Some((seq![s[1]] + t, rest)),
                None => None,
            }
        }
    } else {
        match read_string(s.skip(1)) {
            Some((t, rest)) => Some((seq![s[0]] + t, rest)),
            None => None,
        }
    }
}

proof fn lemma_reads_on(s: Seq<char>, after: Seq<char>, t: Seq<char>, rest: Seq<char>)
    requires
        read_string(after) == Some((t, rest)),
    ensures
        read_string(quoted(s) + after) == Some((s + t, rest)),
    decreases s.len(),
{
    if s.len() == 0 {
        assert(quoted(s) + after =~= after);
        assert(s + t =~= t);
    } else {
        let c = s.last();
        let head = s.drop_last();
        let mid = if c == '\\' || c == '"' {
            seq!['\\', c] + after
        } else {
            seq![c] + after
        };
        if c == '\\' || c == '"' {
            assert(mid.skip(2) =~= after);
        } else {
            assert(mid.skip(1) =~= after);
        }
        assert(read_string(mid) == Some((seq![c] + t, rest)));
        lemma_reads_on(head, mid, seq![c] + t, rest);
        assert(quoted(s) + after =~= quoted(head) + mid);
        assert(s + t =~= head + (seq![c] + t));
    }
}

/// What is written into a string is read back from it, and the string ends where it was ended.
pub proof fn law_string_reads_back(s: Seq<char>, rest: Seq<char>)
    ensures
        read_string(quoted(s) + seq!['"'] + rest) == Some((s, rest)),
{
    let after = seq!['"'] + rest;
    assert(after.skip(1) =~= rest);
    assert(read_string(after) == Some((Seq::<char>::empty(), rest)));
    lemma_reads_on(s, after, seq![], rest);
    assert(quoted(s) + seq!['"'] + rest =~= quoted(s) + after);
    assert(s + Seq::<char>::empty() =~= s);
}

fn push_quoted(out: &mut String, s: &str)
    ensures
        final(out)@ == old(out)@ + quoted(s@),
{
    let cs = chars_of(s);
    assert(out@ =~= old(out)@ + quoted(cs@.take(0)));
    for i in 0..cs.len()
        invariant
            cs@ == s@,
            out@ == old(out)@ + quoted(cs@.take(i as int)),
    {
        let c = cs[i];
        assert(cs@.take(i + 1).drop_last() =~= cs@.take(i as int));
        if c == '\\' || c == '"' {
            out.push('\\');
        }
        out.push(c);
        assert(out@ =~= old(out)@ + quoted(cs@.take(i + 1)));
    }
    assert(cs@.take(cs@.len() as int) =~= cs@);
}

/// Whether `c` can stand in the name of a paper size.
pub open spec fn is_paper_char(c: char) -> bool {
    ('a' <= c <= 'z') || ('A' <= c <= 'Z') || ('0' <= c <= '9') || c == '-'
}

/// Whether `s` can be the name of a paper size.
pub open spec fn is_paper(s: Seq<char>) -> bool {
    s.len() > 0 && forall|i: int| 0 <= i < s.len() ==> is_paper_char(#[trigger] s[i])
}

/// The pages of a Markdown document: those that are set, by the name of a paper size, or one page as
/// long as the document for `auto`; otherwise A4.
pub open spec fn page_setup(set: Option<Seq<char>>) -> Seq<char> {
    let a4 = "#set page(paper: \"a4\", margin: 1.5cm)"@;
    match set {
        Some(s) => {
            let t = text::lowered(text::trimmed(s));
            if t == "auto"@ {
                "#set page(width: 21cm, height: auto, margin: 1.5cm)"@
            } else if is_paper(t) {
                "#set page(paper: \""@ + t + "\", margin: 1.5cm)"@
            } else {
                a4
            }
        },
        None => a4,
    }
}

fn names_paper(s: &[char]) -> (r: bool)
    ensures
        r == is_paper(s@),
{
    for i in 0..s.len()
        invariant
            forall|k: int| 0 <= k < i ==> is_paper_char(#[trigger] s@[k]),
    {
        let c = s[i];
        if !((c >= 'a' && c <= 'z') || (c >= 'A' && c <= 'Z') || (c >= '0' && c <= '9') || c == '-') {
            assert(!is_paper_char(s@[i as int]));
            return false;
        }
    }
    s.len() > 0
}

fn push_page_setup(out: &mut String, set: Option<&str>)
    ensures
        final(out)@ == old(out)@ + page_setup(crate::cells::chars_opt(set)),
{
    if let Some(s) = set {
        let cs = chars_of(s);
        let low = ascii_lower(trim(cs.as_slice()));
        if is_text(low.as_slice(), "auto") {
            out.append("#set page(width: 21cm, height: auto, margin: 1.5cm)");
            return;
        }
        if names_paper(low.as_slice()) {
            out.append("#set page(paper: \"");
            push_chars(out, low.as_slice());
            out.append("\", margin: 1.5cm)");
            assert(out@ =~= old(out)@ + page_setup(Some(s@)));
            return;
        }
    }
    out.append("#set page(paper: \"a4\", margin: 1.5cm)");
}

/// A document for the compiler that shows the Markdown file at `path`.
pub open spec fn markdown_document(path: Seq<char>, set: Option<Seq<char>>) -> Seq<char> {
    "#import \"@preview/cmarker:0.1.9\"\n"@ + page_setup(set)
        + "\n#set text(size: 11pt)\n#cmarker.render(read(\""@ + quoted(path) + "\"))\n"@
}

/// A document for the compiler that shows the Markdown file at `path`. `set` is the setting of the
/// page, if there is one.
pub fn cmarker_wrapper_src(path: &str, set: Option<&str>) -> (r: String)
    ensures
        r@ == markdown_document(path@, crate::cells::chars_opt(set)),
{
    let mut out = "#import \"@preview/cmarker:0.1.9\"\n".to_owned();
    push_page_setup(&mut out, set);
    out.append("\n#set text(size: 11pt)\n#cmarker.render(read(\"");
    push_quoted(&mut out, path);
    out.append("\"))\n");
    assert(out@ =~= markdown_document(path@, crate::cells::chars_opt(set)));
    out
}

// ---------------------------------------------------------------------------
// What the compiler says.

/// A line without the carriage return at its end, if it has one.
pub open spec fn without_return(s: Seq<char>) -> Seq<char> {
    if s.len() > 0 && s.last() == '\r' {
        s.drop_last()
    } else {
        s
    }
}

/// The lines of a text. What follows the last line feed is a line only if it is not empty.
pub open spec fn lines_of(s: Seq<char>) -> Seq<Seq<char>>
    decreases s.len(),
{
    if s.len() == 0 {
        seq![]
    } else {
        match text::first_of(s, '\n', '\n') {
            Some(i) if 0 <= i < s.len() => seq![without_return(s.take(i))] + lines_of(s.skip(i + 1)),
            _ => seq![s],
        }
    }
}

/// The first of the lines that speaks of an error, if one does.
pub open spec fn first_error(lines: Seq<Seq<char>>) -> Option<Seq<char>>
    decreases lines.len(),
{
    if lines.len() == 0 {
        None
    } else if text::occurs(text::lowered(lines[0]), "error"@) {
        Some(lines[0])
    } else {
        first_error(lines.drop_first())
    }
}

/// What is reported of the output of a compiler that failed: the first line that speaks of an error,
/// or else the first line, without the white space around it.
pub open spec fn detail_of(output: Seq<char>) -> Seq<char> {
    let lines = lines_of(output);
    text::trimmed(
        match first_error(lines) {
            Some(line) => line,
            None => if lines.len() > 0 {
                lines[0]
            } else {
                seq![]
            },
        },
    )
}

fn strip_return(s: &[char]) -> (r: &[char])
    ensures
        r@ == without_return(s@),
{
    let n: usize = s.len();
    if n > 0 && s[n - 1] == '\r' {
        let t = slice_subrange(s, 0, n - 1);
        assert(t@ =~= s@.drop_last());
        t
    } else {
        s
    }
}

/// The first line of a text, and what follows it. The text is not empty.
fn split_line(s: &[char]) -> (r: (&[char], &[char]))
    requires
        s@.len() > 0,
    ensures
        lines_of(s@) == seq![r.0@] + lines_of(r.1@),
        r.1@.len() < s@.len(),
{
    let n: usize = s.len();
    match text::find_either(s, '\n', '\n') {
        Some(i) => {
            let line = slice_subrange(s, 0, i);
            let rest = slice_subrange(s, i + 1, n);
            assert(line@ =~= s@.take(i as int));
            assert(rest@ =~= s@.skip(i + 1));
            proof {
                lemma_first_in_range(s@, '\n', '\n');
            }
            (strip_return(line), rest)
        },
        None => {
            let rest = slice_subrange(s, n, n);
            assert(lines_of(rest@) =~= Seq::<Seq<char>>::empty());
            assert(seq![s@] + lines_of(rest@) =~= seq![s@]);
            (s, rest)
        },
    }
}

proof fn lemma_first_in_range(s: Seq<char>, a: char, b: char)
    ensures
        text::first_of(s, a, b) matches Some(i) ==> 0 <= i < s.len(),
    decreases s.len(),
{
    if s.len() > 0 {
        lemma_first_in_range(s.drop_first(), a, b);
    }
}

/// What is reported of the output of a compiler that failed.
pub fn error_detail(output: &str) -> (r: String)
    ensures
        r@ == detail_of(output@),
{
    let cs = chars_of(output);
    let word = chars_of("error");
    let mut rest = cs.as_slice();
    if rest.len() == 0 {
        proof {
            assert(text::trimmed(Seq::<char>::empty()) =~= Seq::<char>::empty());
        }
        return String::new();
    }
    let ghost lines = lines_of(output@);
    let (first, after) = split_line(rest);
    assert(lines[0] == first@);
    let ghost mut left = lines;
    while rest.len() > 0
        invariant
            word@ == "error"@,
            left == lines_of(rest@),
            first_error(lines) == first_error(left),
            lines == lines_of(output@),
        decreases rest@.len(),
    {
        let (line, next) = split_line(rest);
        assert(left[0] == line@);
        assert(left.drop_first() =~= lines_of(next@));
        let low = ascii_lower(line);
        if text::contains(low.as_slice(), word.as_slice()) {
            return string_of(trim(line));
        }
        proof {
            left = lines_of(next@);
        }
        rest = next;
    }
    string_of(trim(first))
}

/// Every name that is made of letters, digits and hyphens is taken for a paper size, in small letters,
/// but for `auto`, which asks for one page as long as the document.
pub proof fn law_named_paper_is_used(s: Seq<char>)
    requires
        s.len() > 0,
        forall|i: int|
            0 <= i < s.len() ==> ('a' <= #[trigger] s[i] <= 'z') || ('A' <= s[i] <= 'Z') || ('0'
                <= s[i] <= '9') || s[i] == '-',
    ensures
        text::lowered(s) != "auto"@ ==> page_setup(Some(s)) == "#set page(paper: \""@
            + text::lowered(s) + "\", margin: 1.5cm)"@,
        text::lowered(s) == "auto"@ ==> page_setup(Some(s))
            == "#set page(width: 21cm, height: auto, margin: 1.5cm)"@,
        page_setup(None) == "#set page(paper: \"a4\", margin: 1.5cm)"@,
{
    assert(('a' <= s[0] <= 'z') || ('A' <= s[0] <= 'Z') || ('0' <= s[0] <= '9') || s[0] == '-');
    let n = s.len() - 1;
    assert(('a' <= s[n] <= 'z') || ('A' <= s[n] <= 'Z') || ('0' <= s[n] <= '9') || s[n] == '-');
    text::law_nothing_to_trim(s);
    let t = text::lowered(s);
    assert forall|i: int| 0 <= i < t.len() implies is_paper_char(#[trigger] t[i]) by {
        text::law_lowering_changes_capitals(s, i);
        assert(('a' <= s[i] <= 'z') || ('A' <= s[i] <= 'Z') || ('0' <= s[i] <= '9') || s[i] == '-');
    }
}

/// A setting that holds any other character, between white space at its ends, is not handed to the
/// compiler: the page is as if it were not set. So it is where nothing is left without the white
/// space.
pub proof fn law_other_paper_is_not_used(s: Seq<char>, i: int)
    requires
        text::trimmed(s).len() == 0 || ({
            let t = text::trimmed(s);
            0 <= i < t.len() && !(('a' <= t[i] <= 'z') || ('A' <= t[i] <= 'Z') || ('0' <= t[i]
                <= '9') || t[i] == '-')
        }),
    ensures
        page_setup(Some(s)) == page_setup(None),
{
    let t = text::trimmed(s);
    let l = text::lowered(t);
    reveal_strlit("auto");
    if t.len() > 0 {
        text::law_lowering_changes_capitals(t, i);
        assert(!is_paper_char(l[i]));
        assert(!is_paper(l));
        if l == "auto"@ {
            assert("auto"@[i] == l[i]);
        }
    }
}

/// The compiler reads from the document the path that was given, whatever characters it has, and
/// nothing of the path is taken for a part of the document. The page is set up before that.
pub proof fn law_document_reads_the_file(path: Seq<char>, set: Option<Seq<char>>)
    ensures
        ({
            let head = "#import \"@preview/cmarker:0.1.9\"\n"@ + page_setup(set)
                + "\n#set text(size: 11pt)\n#cmarker.render(read(\""@;
            let document = markdown_document(path, set);
            &&& document.take(head.len() as int) == head
            &&& read_string(document.skip(head.len() as int)) == Some((path, "))\n"@))
        }),
{
    reveal_strlit("\"))\n");
    reveal_strlit("))\n");
    let head = "#import \"@preview/cmarker:0.1.9\"\n"@ + page_setup(set)
        + "\n#set text(size: 11pt)\n#cmarker.render(read(\""@;
    let document = markdown_document(path, set);
    assert(document.take(head.len() as int) =~= head);
    assert(document.skip(head.len() as int) =~= quoted(path) + seq!['"'] + "))\n"@);
    law_string_reads_back(path, "))\n"@);
}

/// A line ends at a line feed, with or without a carriage return before it, and what is behind the
/// last line feed is a line if there is anything.
pub proof fn law_lines_end_at_line_feeds(line: Seq<char>, rest: Seq<char>)
    requires
        !line.contains('\n'),
        line.len() > 0 ==> line.last() != '\r',
    ensures
        lines_of(line + seq!['\n'] + rest) == seq![line] + lines_of(rest),
        lines_of(line + seq!['\r', '\n'] + rest) == seq![line] + lines_of(rest),
        line.len() > 0 ==> lines_of(line) == seq![line],
        lines_of(Seq::<char>::empty()).len() == 0,
{
    lemma_line_ends(line, rest);
    lemma_line_ends(line.push('\r'), rest);
    assert(line.push('\r') + seq!['\n'] + rest =~= line + seq!['\r', '\n'] + rest);
    assert(line.push('\r').drop_last() =~= line);
    assert forall|i: int| 0 <= i < line.len() implies line[i] != '\n' by {}
    text::law_first_of_two(line, '\n', '\n');
}

proof fn lemma_line_ends(line: Seq<char>, rest: Seq<char>)
    requires
        forall|i: int| 0 <= i < line.len() ==> line[i] != '\n',
    ensures
        lines_of(line + seq!['\n'] + rest) == seq![without_return(line)] + lines_of(rest),
{
    let s = line + seq!['\n'] + rest;
    let n = line.len() as int;
    text::law_first_of_two(s, '\n', '\n');
    assert(s[n] == '\n');
    match text::first_of(s, '\n', '\n') {
        Some(i) => {
            if i < n {
                assert(s[i] == line[i]);
            }
            assert(i == n);
        },
        None => {
            assert(s[n] != '\n');
        },
    }
    assert(s.take(n) =~= line);
    assert(s.skip(n + 1) =~= rest);
}

/// What is reported of a compiler that failed is the first of its lines that speaks of an error, in
/// any case of letters; where none does, its first line; and nothing where it wrote nothing.
pub proof fn law_first_error_is_reported(output: Seq<char>, i: int)
    requires
        0 <= i < lines_of(output).len(),
        forall|k: int|
            0 <= k < i ==> !text::occurs(text::lowered(#[trigger] lines_of(output)[k]), "error"@),
    ensures
        text::occurs(text::lowered(lines_of(output)[i]), "error"@) ==> detail_of(output)
            == text::trimmed(lines_of(output)[i]),
        i == lines_of(output).len() - 1 && !text::occurs(
            text::lowered(lines_of(output)[i]),
            "error"@,
        ) ==> detail_of(output) == text::trimmed(lines_of(output)[0]),
{
    lemma_first_error(lines_of(output), i);
}

proof fn lemma_first_error(lines: Seq<Seq<char>>, i: int)
    requires
        0 <= i < lines.len(),
        forall|k: int| 0 <= k < i ==> !text::occurs(text::lowered(#[trigger] lines[k]), "error"@),
    ensures
        text::occurs(text::lowered(lines[i]), "error"@) ==> first_error(lines) == Some(lines[i]),
        i == lines.len() - 1 && !text::occurs(text::lowered(lines[i]), "error"@) ==> first_error(
            lines,
        ) is None,
    decreases i,
{
    let rest = lines.drop_first();
    if i > 0 {
        assert(!text::occurs(text::lowered(lines[0]), "error"@));
        assert forall|k: int| 0 <= k < i - 1 implies !text::occurs(
            text::lowered(#[trigger] rest[k]),
            "error"@,
        ) by {
            assert(rest[k] == lines[k + 1]);
        }
        assert(rest[i - 1] == lines[i]);
        lemma_first_error(rest, i - 1);
    } else if lines.len() == 1 {
        assert(first_error(rest) is None);
    }
}

} // verus!

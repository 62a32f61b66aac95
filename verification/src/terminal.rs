//! What is written to a terminal: escape sequences, and how they pass through tmux.
use crate::encoding::base64_encode;
use crate::encoding;
use crate::text;
use crate::text::{chars_of, push_decimal};
use vstd::prelude::*;

verus! {

/// The escape character.
pub const ESC: char = '\x1b';

/// `s` with every escape character doubled.
pub open spec fn doubled(s: Seq<char>) -> Seq<char>
    decreases s.len(),
{
    if s.len() == 0 {
        seq![]
    } else if s.last() == ESC {
        doubled(s.drop_last()) + seq![ESC, ESC]
    } else {
        doubled(s.drop_last()).push(s.last())
    }
}

/// `s` wrapped so that tmux hands it on to the terminal it runs in: between `ESC P tmux;` and
/// `ESC \`, with every escape character doubled.
pub open spec fn wrapped(s: Seq<char>) -> Seq<char> {
    "\x1bPtmux;"@ + doubled(s) + "\x1b\\"@
}

/// `s`, wrapped for tmux if it has to pass through it.
pub open spec fn passed(s: Seq<char>, through_tmux: bool) -> Seq<char> {
    if through_tmux {
        wrapped(s)
    } else {
        s
    }
}

/// What tmux hands on of a wrapped text: every pair of escape characters taken as one, up to the
/// first escape character that is not doubled. `None` where there is none.
pub open spec fn unwrapped(s: Seq<char>) -> Option<Seq<char>>
    decreases s.len(),
{
    if s.len() == 0 {
        None
    } else if s[0] != ESC {
        match unwrapped(s.skip(1)) {
            Some(rest) => Some(seq![s[0]] + rest),
            None => None,
        }
    } else if s.len() > 1 && s[1] == ESC {
        match unwrapped(s.skip(2)) {
            Some(rest) => Some(seq![ESC] + rest),
            None => None,
        }
    } else {
        Some(seq![])
    }
}

proof fn lemma_unwraps(s: Seq<char>, after: Seq<char>, rest: Seq<char>)
    requires
        unwrapped(after) == Some(rest),
    ensures
        unwrapped(doubled(s) + after) == Some(s + rest),
    decreases s.len(),
{
    reveal_with_fuel(unwrapped, 2);
    if s.len() == 0 {
        assert(doubled(s) + after =~= after);
        assert(s + rest =~= rest);
    } else {
        let c = s.last();
        let head = s.drop_last();
        let mid = if c == ESC {
            seq![ESC, ESC] + after
        } else {
            seq![c] + after
        };
        assert(mid.skip(if c == ESC {
            2
        } else {
            1
        }) =~= after);
        assert(unwrapped(mid) == Some(seq![c] + rest));
        lemma_unwraps(head, mid, seq![c] + rest);
        assert(doubled(s) + after =~= doubled(head) + mid);
        assert(s + rest =~= head + (seq![c] + rest));
    }
}

/// Whatever is wrapped for tmux, tmux hands on unchanged: it does not end early, and nothing is
/// added or lost.
pub proof fn law_tmux_hands_on_what_was_wrapped(s: Seq<char>)
    ensures
        wrapped(s).take(7) == "\x1bPtmux;"@,
        unwrapped(wrapped(s).skip(7)) == Some(s),
{
    reveal_strlit("\x1bPtmux;");
    reveal_strlit("\x1b\\");
    let end = "\x1b\\"@;
    assert(wrapped(s).skip(7) =~= doubled(s) + end);
    assert(wrapped(s).take(7) =~= "\x1bPtmux;"@);
    assert(unwrapped(end) == Some(Seq::<char>::empty()));
    lemma_unwraps(s, end, seq![]);
    assert(s + Seq::<char>::empty() =~= s);
}

/// Appends `s`, wrapped for tmux if it has to pass through it.
pub fn push_passed(out: &mut String, s: &str, through_tmux: bool)
    ensures
        final(out)@ == old(out)@ + passed(s@, through_tmux),
{
    if !through_tmux {
        out.append(s);
        return;
    }
    out.append("\x1bPtmux;");
    let ghost head = out@;
    let cs = chars_of(s);
    assert(head =~= head + doubled(cs@.take(0)));
    for i in 0..cs.len()
        invariant
            cs@ == s@,
            out@ == head + doubled(cs@.take(i as int)),
    {
        let c = cs[i];
        let ghost before = doubled(cs@.take(i as int));
        assert(cs@.take(i + 1).drop_last() =~= cs@.take(i as int));
        out.push(c);
        if c == ESC {
            out.push(c);
            assert(out@ =~= head + (before + seq![ESC, ESC]));
        } else {
            assert(out@ =~= head + before.push(c));
        }
    }
    assert(cs@.take(cs@.len() as int) =~= cs@);
    out.append("\x1b\\");
    assert(out@ =~= old(out)@ + wrapped(s@));
}

/// The sequence that puts `text` on the clipboard of the terminal.
pub open spec fn clipboard(text: Seq<char>) -> Seq<char> {
    "\x1b]52;c;"@ + encoding::base64_text(vstd::utf8::encode_utf8(text)) + "\x07"@
}

/// What is written to put `text` on the clipboard.
pub fn clipboard_sequence(text: &str, in_tmux: bool) -> (r: String)
    ensures
        r@ == passed(clipboard(text@), in_tmux),
{
    let mut inner = "\x1b]52;c;".to_owned();
    let code = base64_encode(text.as_bytes());
    inner.append(code.as_str());
    inner.append("\x07");
    let mut out = String::new();
    push_passed(&mut out, inner.as_str(), in_tmux);
    assert(out@ =~= passed(clipboard(text@), in_tmux));
    out
}

/// The sequence that moves the cursor to a row and a column, both counted from 1.
pub open spec fn cursor_to(row: nat, column: nat) -> Seq<char> {
    "\x1b["@ + text::decimal(row) + ";"@ + text::decimal(column) + "H"@
}

/// Appends the sequence that moves the cursor.
pub fn push_cursor_to(out: &mut String, row: u64, column: u64)
    ensures
        final(out)@ == old(out)@ + cursor_to(row as nat, column as nat),
{
    out.append("\x1b[");
    push_decimal(out, row);
    out.append(";");
    push_decimal(out, column);
    out.append("H");
    assert(out@ =~= old(out)@ + cursor_to(row as nat, column as nat));
}

/// tmux hands on a wrapped text unchanged whatever is written behind it, and takes nothing of that
/// for a part of it.
pub proof fn law_tmux_ends_where_the_text_ends(s: Seq<char>, behind: Seq<char>)
    ensures
        unwrapped((wrapped(s) + behind).skip(7)) == Some(s),
{
    reveal_strlit("\x1bPtmux;");
    reveal_strlit("\x1b\\");
    let end = "\x1b\\"@ + behind;
    assert((wrapped(s) + behind).skip(7) =~= doubled(s) + end);
    assert(unwrapped(end) == Some(Seq::<char>::empty()));
    lemma_unwraps(s, end, seq![]);
    assert(s + Seq::<char>::empty() =~= s);
}

/// The characters of `s` before the first `c`, or all of them where it holds none.
pub open spec fn up_to(s: Seq<char>, c: char) -> Seq<char>
    decreases s.len(),
{
    if s.len() == 0 || s[0] == c {
        seq![]
    } else {
        seq![s[0]] + up_to(s.skip(1), c)
    }
}

/// The characters before a `c` that is the first are those before it.
pub proof fn lemma_up_to(s: Seq<char>, c: char, behind: Seq<char>)
    requires
        !s.contains(c),
        behind.len() == 0 || behind[0] == c,
    ensures
        up_to(s + behind, c) == s,
    decreases s.len(),
{
    if s.len() > 0 {
        let rest = s.skip(1);
        assert(s[0] != c);
        assert forall|i: int| 0 <= i < rest.len() implies rest[i] != c by {
            assert(s[i + 1] != c);
        }
        lemma_up_to(rest, c, behind);
        assert((s + behind).skip(1) =~= rest + behind);
        assert(seq![s[0]] + rest =~= s);
    } else {
        assert(s + behind =~= behind);
        assert(up_to(behind, c) =~= s);
    }
}

/// Decimal digits hold no other character.
pub proof fn lemma_digits_hold_no_other(n: nat, c: char)
    requires
        !text::is_digit(c),
    ensures
        !text::decimal(n).contains(c),
{
    text::law_decimal_reads_back(n);
}

/// A terminal that reads a sequence that moves the cursor finds the row before the `;` and the
/// column behind it, both as they were given.
pub proof fn law_cursor_goes_where_it_is_sent(row: nat, column: nat)
    ensures
        cursor_to(row, column).take(2) == seq![ESC, '['],
        text::digits_value(up_to(cursor_to(row, column).skip(2), ';')) == row,
        text::digits_value(
            up_to(cursor_to(row, column).skip(3 + text::decimal(row).len() as int), 'H'),
        ) == column,
        cursor_to(row, column).last() == 'H',
{
    reveal_strlit("\x1b[");
    reveal_strlit(";");
    reveal_strlit("H");
    let (r, c) = (text::decimal(row), text::decimal(column));
    text::law_decimal_reads_back(row);
    text::law_decimal_reads_back(column);
    lemma_digits_hold_no_other(row, ';');
    lemma_digits_hold_no_other(column, 'H');
    let whole = cursor_to(row, column);
    assert(whole.skip(2) =~= r + (seq![';'] + c + seq!['H']));
    assert(whole.skip(3 + r.len() as int) =~= c + seq!['H']);
    lemma_up_to(r, ';', seq![';'] + c + seq!['H']);
    lemma_up_to(c, 'H', seq!['H']);
    assert(whole.take(2) =~= seq![ESC, '[']);
}

/// What is put on the clipboard is the text that was given: it stands in base64 behind the head of
/// the sequence, up to its last character, and two texts that are put there alike are one text.
pub proof fn law_clipboard_holds_the_text(a: Seq<char>, b: Seq<char>)
    ensures
        clipboard(a).take(7) == "\x1b]52;c;"@,
        clipboard(a).subrange(7, clipboard(a).len() - 1) == encoding::base64_text(
            vstd::utf8::encode_utf8(a),
        ),
        clipboard(a).last() == '\x07',
        clipboard(a) == clipboard(b) ==> a == b,
{
    reveal_strlit("\x1b]52;c;");
    reveal_strlit("\x07");
    let (x, y) = (vstd::utf8::encode_utf8(a), vstd::utf8::encode_utf8(b));
    assert(clipboard(a).take(7) =~= "\x1b]52;c;"@);
    assert(clipboard(a).subrange(7, clipboard(a).len() - 1) =~= encoding::base64_text(x));
    assert(clipboard(b).subrange(7, clipboard(b).len() - 1) =~= encoding::base64_text(y));
    if clipboard(a) == clipboard(b) {
        encoding::law_base64_injective(x, y);
        vstd::utf8::encode_utf8_decode_utf8(a);
        vstd::utf8::encode_utf8_decode_utf8(b);
    }
}

} // verus!

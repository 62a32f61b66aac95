//! The list of keys, and the line at the bottom of the screen.
use crate::keys;
use crate::keys::{Binding, Keymap};
use crate::terminal;
use crate::terminal::push_cursor_to;
use crate::text;
use vstd::prelude::*;

verus! {

/// `s` filled up with spaces to a length of `width`.
pub open spec fn padded(s: Seq<char>, width: nat) -> Seq<char>
    decreases width - s.len(),
{
    if s.len() >= width {
        s
    } else {
        padded(s.push(' '), width)
    }
}

/// The texts with a comma and a space between each and the next.
pub open spec fn listed(texts: Seq<Seq<char>>) -> Seq<char>
    decreases texts.len(),
{
    if texts.len() == 0 {
        seq![]
    } else if texts.len() == 1 {
        texts[0]
    } else {
        listed(texts.drop_last()) + ", "@ + texts.last()
    }
}

/// The line of an action: its name and its keys.
pub open spec fn action_line(a: keys::ActionSpec) -> Seq<char> {
    "  "@ + padded(a.name, 12) + " "@ + listed(a.keys)
}

/// The lines before those of the actions.
pub open spec fn help_head() -> Seq<Seq<char>> {
    seq!["vecview - keyboard shortcuts"@, Seq::empty()]
}

/// The lines after those of the actions.
pub open spec fn help_tail(config: Seq<char>) -> Seq<Seq<char>> {
    seq![
        Seq::empty(),
        "  mouse:"@,
        "    wheel          next / prev page"@,
        "    drag           select text & copy on release"@,
        Seq::empty(),
        "  copy mode (text selection):"@,
        "    hjkl / arrows  move caret    0 / $   line start / end"@,
        "    g / G          doc start/end space   start/clear selection"@,
        "    enter or y     copy & exit   esc / q cancel"@,
        Seq::empty(),
        "  config: "@ + config,
        "    rebind under [keys] with  <action> = [\"key\", ...]"@,
        "  press any key to close"@,
    ]
}

/// The lines of the actions, one each, in order.
pub open spec fn action_lines(specs: Seq<keys::ActionSpec>) -> Seq<Seq<char>> {
    Seq::new(specs.len(), |i: int| action_line(specs[i]))
}

/// The lines of the list of keys. The names of the actions are those of the configuration.
pub open spec fn help(specs: Seq<keys::ActionSpec>, config: Seq<char>) -> Seq<Seq<char>> {
    help_head() + action_lines(specs) + help_tail(config)
}

fn push_padded(out: &mut String, s: &str, width: usize)
    ensures
        final(out)@ == old(out)@ + padded(s@, width as nat),
{
    let cs = text::chars_of(s);
    let mut n: usize = cs.len();
    out.append(s);
    let ghost mut have = s@;
    while n < width
        invariant
            n == have.len(),
            padded(s@, width as nat) == padded(have, width as nat),
            out@ == old(out)@ + have,
        decreases width - n,
    {
        out.push(' ');
        proof {
            assert(old(out)@ + have.push(' ') =~= (old(out)@ + have).push(' '));
            have = have.push(' ');
        }
        n += 1;
    }
}

fn push_listed(out: &mut String, texts: &Vec<String>)
    ensures
        final(out)@ == old(out)@ + listed(text::texts(texts@)),
{
    let ghost all = text::texts(texts@);
    assert(out@ =~= old(out)@ + listed(all.take(0)));
    for i in 0..texts.len()
        invariant
            all == text::texts(texts@),
            out@ == old(out)@ + listed(all.take(i as int)),
    {
        assert(all.take(i + 1).drop_last() =~= all.take(i as int));
        if i > 0 {
            out.append(", ");
        }
        out.append(texts[i].as_str());
        assert(out@ =~= old(out)@ + listed(all.take(i + 1)));
    }
    assert(all.take(all.len() as int) =~= all);
}

fn binding_line(b: &Binding) -> (r: String)
    ensures
        r@ == action_line(keys::binding_spec(*b)),
{
    let mut out = "  ".to_owned();
    push_padded(&mut out, b.name, 12);
    out.append(" ");
    push_listed(&mut out, &b.keys);
    assert(out@ =~= action_line(keys::binding_spec(*b)));
    out
}

fn push_line(out: &mut Vec<String>, line: &str)
    ensures
        text::texts(final(out)@) == text::texts(old(out)@).push(line@),
{
    out.push(line.to_owned());
    assert(text::texts(out@) =~= text::texts(old(out)@).push(line@));
}

/// The lines of the list of keys. `config` is the path of the configuration, where it is known.
pub fn help_lines(keymap: &Keymap, config: Option<&str>) -> (r: Vec<String>)
    ensures
        text::texts(r@) == help(
            keymap.listed(),
            match config {
                Some(path) => path@,
                None => "~/.config/vecview/config.toml"@,
            },
        ),
{
    let path = match config {
        Some(path) => path,
        None => "~/.config/vecview/config.toml",
    };
    proof {
        reveal_strlit("");
        assert(""@ =~= Seq::<char>::empty());
    }
    let mut out: Vec<String> = Vec::new();
    push_line(&mut out, "vecview - keyboard shortcuts");
    push_line(&mut out, "");
    assert(text::texts(out@) =~= help_head());
    let bs = keymap.bindings();
    let ghost specs = keymap.listed();
    for i in 0..bs.len()
        invariant
            specs == keys::binding_specs(bs@),
            text::texts(out@) =~= help_head() + action_lines(specs).take(i as int),
    {
        assert(specs[i as int] == keys::binding_spec(bs@[i as int]));
        let line = binding_line(&bs[i]);
        push_line(&mut out, line.as_str());
        assert(action_lines(specs).take(i + 1) =~= action_lines(specs).take(i as int).push(
            action_lines(specs)[i as int],
        ));
    }
    assert(action_lines(specs).take(specs.len() as int) =~= action_lines(specs));
    let ghost upper = text::texts(out@);
    push_line(&mut out, "");
    push_line(&mut out, "  mouse:");
    push_line(&mut out, "    wheel          next / prev page");
    push_line(&mut out, "    drag           select text & copy on release");
    push_line(&mut out, "");
    push_line(&mut out, "  copy mode (text selection):");
    push_line(&mut out, "    hjkl / arrows  move caret    0 / $   line start / end");
    push_line(&mut out, "    g / G          doc start/end space   start/clear selection");
    push_line(&mut out, "    enter or y     copy & exit   esc / q cancel");
    push_line(&mut out, "");
    let mut config_line = "  config: ".to_owned();
    config_line.append(path);
    push_line(&mut out, config_line.as_str());
    push_line(&mut out, "    rebind under [keys] with  <action> = [\"key\", ...]");
    push_line(&mut out, "  press any key to close");
    assert(text::texts(out@) =~= upper + help_tail(path@));
    out
}

/// What writes lines to the screen, from the second row and the third column on.
pub open spec fn lines_on_screen(lines: Seq<Seq<char>>) -> Seq<char>
    decreases lines.len(),
{
    if lines.len() == 0 {
        seq![]
    } else {
        lines_on_screen(lines.drop_last()) + terminal::cursor_to(lines.len() + 1, 3) + lines.last()
    }
}

/// What writes the list of keys to an empty screen.
pub fn help_screen(lines: &Vec<String>) -> (r: String)
    requires
        lines@.len() < usize::MAX,
    ensures
        r@ == lines_on_screen(text::texts(lines@)),
{
    let ghost all = text::texts(lines@);
    let mut out = String::new();
    assert(out@ =~= lines_on_screen(all.take(0)));
    for i in 0..lines.len()
        invariant
            lines@.len() < usize::MAX,
            all == text::texts(lines@),
            out@ == lines_on_screen(all.take(i as int)),
    {
        assert(all.take(i + 1).drop_last() =~= all.take(i as int));
        push_cursor_to(&mut out, i as u64 + 2, 3);
        out.append(lines[i].as_str());
        assert(out@ =~= lines_on_screen(all.take(i + 1)));
    }
    assert(all.take(all.len() as int) =~= all);
    out
}

/// What replaces the last row of the screen by `message`.
pub open spec fn bottom_line(rows: nat, message: Seq<char>) -> Seq<char> {
    terminal::cursor_to(rows, 1) + "\x1b[2K"@ + message
}

/// The hint that is shown while text is selected.
pub const COPY_HINT: &'static str = "-- COPY: hjkl/arrows move, space select, enter yank, esc cancel --";

/// What writes the last row: a message, if there is one, or else the hint while text is selected.
pub fn overlay_text(message: Option<&str>, copying: bool, rows: u16) -> (r: String)
    ensures
        r@ == (match message {
            Some(m) => bottom_line(rows as nat, m@),
            None => if copying {
                bottom_line(rows as nat, COPY_HINT@)
            } else {
                seq![]
            },
        }),
{
    let mut out = String::new();
    let line = match message {
        Some(m) => m,
        None => if copying {
            COPY_HINT
        } else {
            return out;
        },
    };
    push_cursor_to(&mut out, rows as u64, 1);
    out.append("\x1b[2K");
    out.append(line);
    assert(out@ =~= bottom_line(rows as nat, line@));
    out
}

/// Filling up keeps a text, and puts nothing but spaces behind it, up to the width.
pub proof fn law_filled_up_with_spaces(s: Seq<char>, width: nat)
    ensures
        padded(s, width).len() == (if s.len() < width {
            width
        } else {
            s.len()
        }),
        padded(s, width).take(s.len() as int) == s,
        forall|i: int| s.len() <= i < padded(s, width).len() ==> #[trigger] padded(s, width)[i]
            == ' ',
    decreases width - s.len(),
{
    if s.len() < width {
        let t = s.push(' ');
        law_filled_up_with_spaces(t, width);
        let p = padded(s, width);
        assert(p.take(s.len() as int) =~= p.take(t.len() as int).take(s.len() as int));
        assert(t.take(s.len() as int) =~= s);
        assert(p[s.len() as int] == p.take(t.len() as int)[s.len() as int]);
    } else {
        assert(s.take(s.len() as int) =~= s);
    }
}

/// Texts are listed in order, with a comma and a space between two of them, and nowhere else.
pub proof fn law_listed_in_order(a: Seq<Seq<char>>, b: Seq<Seq<char>>)
    requires
        a.len() > 0,
        b.len() > 0,
    ensures
        listed(a + b) == listed(a) + seq![',', ' '] + listed(b),
        listed(seq![a[0]]) == a[0],
    decreases b.len(),
{
    reveal_strlit(", ");
    assert(", "@ =~= seq![',', ' ']);
    let rest = b.drop_last();
    assert((a + b).drop_last() =~= a + rest);
    if rest.len() == 0 {
        assert(a + rest =~= a);
        assert(listed(b) =~= b[0]);
    } else {
        law_listed_in_order(a, rest);
        assert(listed(a + b) =~= listed(a) + seq![',', ' '] + listed(b));
    }
}

/// The line of an action begins with its name, behind two spaces, and its keys stand behind that,
/// from the same column in every line whose name is not too long.
pub proof fn law_line_has_name_and_keys(a: keys::ActionSpec)
    ensures
        a.name.len() <= 12 ==> action_line(a).skip(15) == listed(a.keys),
        action_line(a).subrange(2, 2 + a.name.len() as int) == a.name,
        action_line(a).take(2) == seq![' ', ' '],
{
    reveal_strlit("  ");
    reveal_strlit(" ");
    law_filled_up_with_spaces(a.name, 12);
    let line = action_line(a);
    let p = padded(a.name, 12);
    assert(line.subrange(2, 2 + a.name.len() as int) =~= p.take(a.name.len() as int));
    assert(line.take(2) =~= seq![' ', ' ']);
    if a.name.len() <= 12 {
        assert(line.skip(15) =~= listed(a.keys));
    }
}

/// Every action has a line of its own, in order, behind the title and an empty line; what the mouse
/// does, what keys do while text is selected, and where the configuration is come behind them.
pub proof fn law_every_action_is_listed(specs: Seq<keys::ActionSpec>, config: Seq<char>, i: int)
    requires
        0 <= i < specs.len(),
    ensures
        help(specs, config).len() == specs.len() + 15,
        help(specs, config)[2 + i] == action_line(specs[i]),
        help(specs, config)[specs.len() as int + 4] == "    wheel          next / prev page"@,
        help(specs, config)[specs.len() as int + 5] == "    drag           select text & copy on release"@,
        help(specs, config)[specs.len() as int + 8]
            == "    hjkl / arrows  move caret    0 / $   line start / end"@,
        help(specs, config)[specs.len() as int + 9]
            == "    g / G          doc start/end space   start/clear selection"@,
        help(specs, config)[specs.len() as int + 10]
            == "    enter or y     copy & exit   esc / q cancel"@,
        help(specs, config)[specs.len() as int + 12] == "  config: "@ + config,
        help(specs, config)[specs.len() as int + 14] == "  press any key to close"@,
{
}

/// Each line is written from the third column on, one row below the line before it, the first in the
/// second row.
pub proof fn law_lines_are_below_each_other(lines: Seq<Seq<char>>, more: Seq<Seq<char>>)
    requires
        lines.len() > 0,
    ensures
        lines_on_screen(lines) == lines_on_screen(lines.drop_last()) + "\x1b["@ + text::decimal(
            lines.len() + 1,
        ) + ";3H"@ + lines.last(),
        lines_on_screen(seq![]).len() == 0,
        lines_on_screen(lines + more).len() >= lines_on_screen(lines).len(),
        lines_on_screen(lines + more).take(lines_on_screen(lines).len() as int) == lines_on_screen(
            lines,
        ),
    decreases more.len(),
{
    reveal_strlit("\x1b[");
    reveal_strlit(";");
    reveal_strlit("H");
    reveal_strlit(";3H");
    assert(text::decimal(3) =~= seq!['3']);
    assert(terminal::cursor_to(lines.len() + 1, 3) =~= "\x1b["@ + text::decimal(lines.len() + 1)
        + ";3H"@);
    assert(lines_on_screen(lines) =~= lines_on_screen(lines.drop_last()) + "\x1b["@
        + text::decimal(lines.len() + 1) + ";3H"@ + lines.last());
    let n = lines_on_screen(lines).len() as int;
    if more.len() > 0 {
        let rest = more.drop_last();
        law_lines_are_below_each_other(lines, rest);
        assert((lines + more).drop_last() =~= lines + rest);
        assert(lines_on_screen(lines + more).take(n) =~= lines_on_screen(lines + rest).take(n));
    } else {
        assert(lines + more =~= lines);
        assert(lines_on_screen(lines).take(n) =~= lines_on_screen(lines));
    }
}

/// A message is written from the first column of the last row on, which is emptied before.
pub proof fn law_message_replaces_the_last_row(rows: nat, message: Seq<char>)
    ensures
        bottom_line(rows, message) == "\x1b["@ + text::decimal(rows) + ";1H\x1b[2K"@ + message,
{
    reveal_strlit("\x1b[");
    reveal_strlit(";");
    reveal_strlit("H");
    reveal_strlit("\x1b[2K");
    reveal_strlit(";1H\x1b[2K");
    assert(text::decimal(1) =~= seq!['1']);
    assert(bottom_line(rows, message) =~= "\x1b["@ + text::decimal(rows) + ";1H\x1b[2K"@ + message);
}

} // verus!

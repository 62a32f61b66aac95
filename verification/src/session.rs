//! A viewing session: what input does, and when something is drawn.
//!
//! Times are counted in nanoseconds from some moment before the session.
use crate::copy;
use crate::copy::{handle_copy_key, CopyOutcome, Glyph};
use crate::keys;
use crate::keys::{Action, Key, Keymap};
use crate::text;
use crate::text::{ascii_lower, chars_of, push_decimal, string_of, trim};
use crate::view::{apply_action, ViewState};
use vstd::prelude::*;
use vstd::slice::slice_subrange;

verus! {

// ---------------------------------------------------------------------------
// Input.

/// What a burst of input calls for.
#[derive(Clone, Copy, Debug, PartialEq, Eq, Structural)]
pub struct Burst {
    pub quit: bool,
    /// The document changed.
    pub reload: bool,
    /// The page has to be drawn anew.
    pub dirty: bool,
    /// Only what lies over the page has to be drawn anew.
    pub overlay_only: bool,
    /// The list of keys was shown or hidden.
    pub help_changed: bool,
}

impl Burst {
    /// Nothing.
    pub fn new() -> (r: Self)
        ensures
            r == (Burst {
                quit: false,
                reload: false,
                dirty: false,
                overlay_only: false,
                help_changed: false,
            }),
    {
        Burst {
            quit: false,
            reload: false,
            dirty: false,
            overlay_only: false,
            help_changed: false,
        }
    }
}

/// What is left to be done for a key.
pub enum Command {
    Nothing,
    /// End the session. What follows in the burst is not looked at.
    Quit,
    /// Put a text on the clipboard.
    Copy(String),
    /// Read the text of the page, to select from it.
    ReadText,
    /// Write the document as PDF.
    ExportPdf,
}

/// The message after `n` characters were copied.
pub open spec fn copied_message(n: nat) -> Seq<char> {
    "copied "@ + text::decimal(n) + " chars"@
}

fn copied(s: &str) -> (r: String)
    ensures
        r@ == copied_message(s@.len()),
{
    let cs = chars_of(s);
    let mut out = "copied ".to_owned();
    push_decimal(&mut out, cs.len() as u64);
    out.append(" chars");
    out
}

/// Whether a text was copied and selecting ended: the text is what was selected, and the message
/// says how long it is.
pub open spec fn copied_out<T: Copy>(
    before: ViewState<T>,
    cm: copy::CopyMode<T>,
    after: ViewState<T>,
    copied: Seq<char>,
) -> bool {
    &&& copied == cm.selected()
    &&& after == (ViewState { copy: None, status: after.status, ..before })
    &&& after.status matches Some(m) && m@ == copied_message(copied.len())
}

/// Whether a key did what it does while text is selected.
pub open spec fn copy_key_done<T: Copy, C: Fn(Glyph<T>, Glyph<T>) -> u32>(
    before: ViewState<T>,
    cm: copy::CopyMode<T>,
    key: Key,
    cost: C,
    after: ViewState<T>,
    command: Command,
) -> bool {
    match copy::copy_meaning(key) {
        copy::CopyMeaning::Ends(CopyOutcome::Yank) => command matches Command::Copy(s)
            && copied_out(before, cm, after, s@),
        copy::CopyMeaning::Ends(_) => command is Nothing && after == (ViewState {
            copy: None,
            ..before
        }),
        copy::CopyMeaning::Changes(step) => command is Nothing && after == (ViewState {
            copy: Some(cm.changed(step)),
            ..before
        }),
        copy::CopyMeaning::MovesLines(delta) => command is Nothing && (after.copy matches Some(moved)
            && cm.moved_lines(delta, cost, moved) && after == (ViewState {
            copy: Some(moved),
            ..before
        })),
        copy::CopyMeaning::Nothing => command is Nothing && after == before,
    }
}

/// Whether an action did what it does when no text is selected. While the list of keys is shown,
/// every key but those that end the session hides it.
pub open spec fn action_done<T: Copy, P: Fn((T, T), T, T, i32, i32) -> (T, T)>(
    before: ViewState<T>,
    calls: Burst,
    action: Option<Action>,
    pages: usize,
    pan: P,
    after: ViewState<T>,
    calls_after: Burst,
    command: Command,
) -> bool {
    if action == Some(Action::Quit) {
        after == before && calls_after == (Burst { quit: true, ..calls }) && command is Quit
    } else if action == Some(Action::ToggleHelp) || before.help {
        &&& after == (ViewState { help: !before.help, ..before })
        &&& calls_after == (Burst { help_changed: true, ..calls })
        &&& command is Nothing
    } else {
        match action {
            Some(Action::EnterCopyMode) => after == before && calls_after == (Burst {
                dirty: true,
                ..calls
            }) && command is ReadText,
            Some(Action::ExportPdf) => after == before && calls_after == (Burst {
                overlay_only: true,
                ..calls
            }) && command is ExportPdf,
            Some(a) => before.acted(a, pages, pan, after) && calls_after == (Burst {
                dirty: true,
                ..calls
            }) && command is Nothing,
            None => after == before && calls_after == calls && command is Nothing,
        }
    }
}

/// Carries out a key. While text is selected, keys belong to the selection; `cost` says how far one
/// glyph is from another, and `pan` how the view moves. A key that is let go does nothing.
pub fn on_key<T: Copy>(
    key: &Key,
    pressed: bool,
    keymap: &Keymap,
    pages: usize,
    state: &mut ViewState<T>,
    burst: &mut Burst,
    cost: impl Fn(Glyph<T>, Glyph<T>) -> u32,
    pan: impl Fn((T, T), T, T, i32, i32) -> (T, T),
) -> (r: Command)
    requires
        old(state).copy matches Some(cm) ==> cm.wf(),
        old(state).zoom * 3 <= u32::MAX,
        forall|a: Glyph<T>, b: Glyph<T>| #[trigger] call_requires(cost, (a, b)),
        forall|c: (T, T), w: T, h: T, dx: i32, dy: i32| #[trigger]
            call_requires(pan, (c, w, h, dx, dy)),
    ensures
        !pressed ==> *final(state) == *old(state) && *final(burst) == *old(burst) && r is Nothing,
        pressed ==> (match old(state).copy {
            Some(cm) => {
                &&& copy_key_done(*old(state), cm, *key, cost, *final(state), r)
                &&& *final(burst) == (if copy::copy_meaning(*key) is Nothing {
                    *old(burst)
                } else {
                    Burst { overlay_only: true, ..*old(burst) }
                })
            },
            None => action_done(
                *old(state),
                *old(burst),
                if keymap@.dom().contains(*key) {
                    Some(keymap@[*key])
                } else {
                    None
                },
                pages,
                pan,
                *final(state),
                *final(burst),
                r,
            ),
        }),
        final(state).copy matches Some(cm) ==> cm.wf(),
{
    if !pressed {
        return Command::Nothing;
    }
    if let Some(mut cm) = state.copy.take() {
        let outcome = handle_copy_key(key, &mut cm, cost);
        match outcome {
            CopyOutcome::Yank => {
                let s = cm.selected_text();
                state.status = Some(copied(s.as_str()));
                burst.overlay_only = true;
                return Command::Copy(s);
            },
            CopyOutcome::Exit => {
                burst.overlay_only = true;
            },
            CopyOutcome::Redraw => {
                state.copy = Some(cm);
                burst.overlay_only = true;
            },
            CopyOutcome::Ignore => {
                state.copy = Some(cm);
            },
        }
        return Command::Nothing;
    }
    let action = keymap.action(key);
    if let Some(Action::Quit) = action {
        burst.quit = true;
        return Command::Quit;
    }
    let toggles = match action {
        Some(Action::ToggleHelp) => true,
        _ => false,
    };
    if toggles || state.help {
        state.help = !state.help;
        burst.help_changed = true;
        return Command::Nothing;
    }
    match action {
        Some(Action::EnterCopyMode) => {
            burst.dirty = true;
            Command::ReadText
        },
        Some(Action::ExportPdf) => {
            burst.overlay_only = true;
            Command::ExportPdf
        },
        Some(a) => {
            apply_action(a, pages, state, pan);
            burst.dirty = true;
            Command::Nothing
        },
        None => Command::Nothing,
    }
}

/// The text of the page was read: selecting begins, unless there is nothing to select.
pub fn on_text<T: Copy>(text: Option<copy::CopyMode<T>>, state: &mut ViewState<T>)
    requires
        text matches Some(cm) ==> cm.wf(),
    ensures
        (match text {
            Some(cm) => *final(state) == (ViewState { copy: Some(cm), ..*old(state) }),
            None => *final(state) == (ViewState { status: final(state).status, ..*old(state) })
                && (final(state).status matches Some(m) && m@
                == "no selectable text on this page"@),
        }),
{
    match text {
        Some(cm) => {
            state.copy = Some(cm);
        },
        None => {
            state.status = Some("no selectable text on this page".to_owned());
        },
    }
}

/// The button of the mouse was pressed at a glyph, if at one: a selection begins there.
pub fn on_press<T: Copy>(glyph: Option<usize>, state: &mut ViewState<T>, burst: &mut Burst)
    requires
        old(state).copy matches Some(cm) ==> cm.wf() && (glyph matches Some(i) ==> i
            < cm.glyphs@.len()),
    ensures
        (match (old(state).copy, glyph) {
            (Some(cm), Some(i)) => {
                &&& *final(state) == (ViewState {
                    copy: Some(copy::CopyMode { cursor: i, anchor: Some(i), ..cm }),
                    ..*old(state)
                })
                &&& *final(burst) == (Burst { dirty: true, ..*old(burst) })
            },
            _ => *final(state) == *old(state) && *final(burst) == *old(burst),
        }),
        final(state).copy matches Some(cm) ==> cm.wf(),
        old(state).copy is Some && glyph is Some ==> (final(state).copy matches Some(cm)
            && cm.selection().0 == glyph->0 && cm.selection().1 == glyph->0),
{
    if let Some(i) = glyph {
        if let Some(mut cm) = state.copy.take() {
            copy::press(&mut cm, i);
            state.copy = Some(cm);
            burst.dirty = true;
        }
    }
}

/// The mouse was moved to a glyph, if to one, with its button held: the selection extends there.
pub fn on_drag<T: Copy>(glyph: Option<usize>, state: &mut ViewState<T>, burst: &mut Burst)
    requires
        old(state).copy matches Some(cm) ==> cm.wf() && (glyph matches Some(i) ==> i
            < cm.glyphs@.len()),
    ensures
        (match (old(state).copy, glyph) {
            (Some(cm), Some(i)) => {
                &&& *final(state) == (ViewState {
                    copy: Some(copy::CopyMode { cursor: i, ..cm }),
                    ..*old(state)
                })
                &&& *final(burst) == (Burst { overlay_only: true, ..*old(burst) })
            },
            _ => *final(state) == *old(state) && *final(burst) == *old(burst),
        }),
        final(state).copy matches Some(cm) ==> cm.wf(),
        old(state).copy is Some && glyph is Some ==> (final(state).copy matches Some(cm) && cm.cursor
            == glyph->0 && cm.anchor == old(state).copy->0.anchor),
{
    if let Some(i) = glyph {
        if let Some(mut cm) = state.copy.take() {
            copy::drag(&mut cm, i);
            state.copy = Some(cm);
            burst.overlay_only = true;
        }
    }
}

/// The button of the mouse was let go: after a drag the selection is copied and selecting ends,
/// after a click it goes on. The text to put on the clipboard, if any.
pub fn on_release<T: Copy>(state: &mut ViewState<T>, burst: &mut Burst) -> (r: Option<String>)
    requires
        old(state).copy matches Some(cm) ==> cm.wf(),
    ensures
        (match old(state).copy {
            Some(cm) => {
                &&& *final(burst) == (Burst { overlay_only: true, ..*old(burst) })
                &&& if cm.anchor matches Some(a) && a != cm.cursor {
                    r matches Some(s) && copied_out(*old(state), cm, *final(state), s@)
                } else {
                    r is None && *final(state) == *old(state)
                }
            },
            None => r is None && *final(state) == *old(state) && *final(burst) == *old(burst),
        }),
{
    if let Some(cm) = state.copy.take() {
        burst.overlay_only = true;
        if copy::release(&cm) {
            let s = cm.selected_text();
            state.status = Some(copied(s.as_str()));
            return Some(s);
        }
        state.copy = Some(cm);
    }
    None
}

/// The wheel was turned: to the next page, or the page before. On another page selecting ends.
pub fn on_wheel<T: Copy>(down: bool, pages: usize, state: &mut ViewState<T>, burst: &mut Burst)
    ensures
        ({
            let page = old(state).page_after(
                if down {
                    Action::NextPage
                } else {
                    Action::PrevPage
                },
                pages,
            );
            if page == old(state).page {
                *final(state) == *old(state) && *final(burst) == *old(burst)
            } else {
                &&& *final(state) == (ViewState { copy: None, ..old(state).at_page(page) })
                &&& *final(burst) == (Burst { dirty: true, ..*old(burst) })
            }
        }),
        down && old(state).page + 1 < pages ==> final(state).page == old(state).page + 1,
        !down && old(state).page > 0 ==> final(state).page == old(state).page - 1,
        final(state).page != old(state).page ==> final(state).copy is None,
        final(state).page != old(state).page ==> final(state).center is None && final(burst).dirty,
{
    let page: usize = if down {
        if pages > 0 && state.page < pages - 1 {
            state.page + 1
        } else {
            state.page
        }
    } else if state.page > 0 {
        state.page - 1
    } else {
        state.page
    };
    if page != state.page {
        state.page = page;
        state.center = None;
        state.copy = None;
        burst.dirty = true;
    }
}

/// The most of a message of the compiler that is shown, in characters.
pub const MESSAGE_MAX: usize = 200;

/// What a line of the compiler is shown as: an error as far as there is room, and nothing, in place
/// of an earlier error, when the document was compiled. Other lines are not shown.
pub open spec fn compiler_message(line: Seq<char>) -> Option<Seq<char>> {
    let t = text::trimmed(line);
    if text::occurs(text::lowered(t), "error"@) {
        if t.len() > MESSAGE_MAX {
            Some(t.take(MESSAGE_MAX as int))
        } else {
            Some(t)
        }
    } else if text::occurs(text::lowered(t), "compiled successfully"@) {
        Some(seq![])
    } else {
        None
    }
}

/// The compiler wrote a line.
pub fn on_compiler_line<T: Copy>(line: &str, state: &mut ViewState<T>, burst: &mut Burst)
    ensures
        (match compiler_message(line@) {
            Some(shown) => {
                &&& *final(state) == (ViewState { status: final(state).status, ..*old(state) })
                &&& final(state).status matches Some(m) && m@ == shown
                &&& *final(burst) == (Burst { overlay_only: true, ..*old(burst) })
            },
            None => *final(state) == *old(state) && *final(burst) == *old(burst),
        }),
{
    let cs = chars_of(line);
    let t = trim(cs.as_slice());
    let low = ascii_lower(t);
    let error = chars_of("error");
    let done = chars_of("compiled successfully");
    if text::contains(low.as_slice(), error.as_slice()) {
        let shown = if t.len() > MESSAGE_MAX {
            slice_subrange(t, 0, MESSAGE_MAX)
        } else {
            t
        };
        assert(t@.len() > MESSAGE_MAX ==> shown@ =~= t@.take(MESSAGE_MAX as int));
        state.status = Some(string_of(shown));
        burst.overlay_only = true;
    } else if text::contains(low.as_slice(), done.as_slice()) {
        state.status = Some(String::new());
        burst.overlay_only = true;
    }
}

/// Whether a page need not be drawn anew after the document changed: its file is not there, or it
/// is the page that was last drawn, and its file has not changed since.
pub fn page_unchanged(page: usize, modified: Option<i128>, last: Option<(usize, i128)>) -> (r: bool)
    ensures
        r == (match modified {
            None => true,
            Some(m) => last == Some((page, m)),
        }),
{
    match modified {
        None => true,
        Some(m) => match last {
            Some((p, l)) => p == page && l == m,
            None => false,
        },
    }
}

/// The document changed to one of `pages` pages. The page is drawn anew if `changed` says so of the
/// page that is shown now, and then selecting ends.
pub fn on_reload<T: Copy>(pages: usize, changed: bool, state: &mut ViewState<T>, burst: &mut Burst)
    requires
        pages > 0,
    ensures
        ({
            let kept = if old(state).page >= pages {
                old(state).at_page((pages - 1) as usize)
            } else {
                *old(state)
            };
            let dirty = old(burst).dirty || changed;
            &&& *final(burst) == (Burst { dirty, ..*old(burst) })
            &&& *final(state) == (if dirty {
                ViewState { copy: None, ..kept }
            } else {
                kept
            })
        }),
        final(state).page < pages,
        old(state).page < pages ==> final(state).page == old(state).page,
        old(state).page >= pages ==> final(state).page == pages - 1,
        changed ==> final(burst).dirty && final(state).copy is None,
        !changed && !old(burst).dirty ==> final(state).copy == old(state).copy,
        !changed && !old(burst).dirty ==> !final(burst).dirty,
{
    state.keep_within(pages);
    if changed {
        burst.dirty = true;
    }
    if burst.dirty {
        state.copy = None;
    }
}

/// The document changed, but could not be opened. What was shown stays; where the page is drawn anew
/// for another reason, selecting ends.
pub fn on_failed_reload<T: Copy>(state: &mut ViewState<T>, burst: &Burst)
    ensures
        *final(state) == (if burst.dirty {
            ViewState { copy: None, ..*old(state) }
        } else {
            *old(state)
        }),
{
    if burst.dirty {
        state.copy = None;
    }
}

// ---------------------------------------------------------------------------
// When something is drawn.

/// What has still to be drawn.
#[derive(Clone, Copy, Debug, PartialEq, Eq, Structural)]
pub struct Pending {
    /// The page.
    pub full: bool,
    /// What lies over the page.
    pub overlay: bool,
}

/// What is drawn now.
#[derive(Clone, Copy, Debug, PartialEq, Eq, Structural)]
pub enum Drawing {
    Nothing,
    /// The list of keys.
    Help,
    /// The page.
    Full,
    /// The page as it was last drawn, with what lies over it.
    Overlay,
}

/// The time from `then` to `now`.
pub open spec fn elapsed(then: u64, now: u64) -> nat {
    if now > then {
        (now - then) as nat
    } else {
        0
    }
}

/// How much of `interval` is left `since` it began.
pub open spec fn left_of(interval: u64, since: u64, now: u64) -> nat {
    if elapsed(since, now) >= interval {
        0
    } else {
        (interval - elapsed(since, now)) as nat
    }
}

fn time_left(interval: u64, since: u64, now: u64) -> (r: u64)
    ensures
        r == left_of(interval, since, now),
{
    let gone: u64 = if now > since {
        now - since
    } else {
        0
    };
    if gone >= interval {
        0
    } else {
        interval - gone
    }
}

/// How much time is left until the next image may be sent.
pub open spec fn until_next_image(last: Option<u64>, min_frame: u64, now: u64) -> nat {
    match last {
        Some(then) => left_of(min_frame, then, now),
        None => 0,
    }
}

impl Pending {
    /// Whether anything has to be drawn.
    pub open spec fn any(self) -> bool {
        self.full || self.overlay
    }

    /// Nothing.
    pub fn none() -> (r: Self)
        ensures
            !r.any(),
    {
        Pending { full: false, overlay: false }
    }

    /// Takes in what a burst of input called for. When the list of keys is hidden the page has to be
    /// drawn.
    pub fn take_in(&mut self, burst: &Burst, help: bool)
        ensures
            *final(self) == (Pending {
                full: old(self).full || burst.dirty || (burst.help_changed && !help),
                overlay: old(self).overlay || burst.overlay_only,
            }),
            old(self).full ==> final(self).full,
            old(self).overlay ==> final(self).overlay,
            burst.dirty ==> final(self).full,
            burst.overlay_only ==> final(self).overlay,
    {
        if burst.dirty || (burst.help_changed && !help) {
            self.full = true;
        }
        if burst.overlay_only {
            self.overlay = true;
        }
    }

    /// What is drawn now. While the list of keys is shown nothing else is drawn, and nothing is
    /// kept for later. Otherwise what has to be drawn is drawn if the window is `visible` and
    /// `min_frame` has passed since the last image was sent, and kept for later if not.
    pub open spec fn due(
        self,
        help: bool,
        help_changed: bool,
        visible: bool,
        last: Option<u64>,
        min_frame: u64,
        now: u64,
    ) -> (Drawing, Pending) {
        let none = Pending { full: false, overlay: false };
        if help {
            (
                if help_changed {
                    Drawing::Help
                } else {
                    Drawing::Nothing
                },
                none,
            )
        } else if self.any() && visible && until_next_image(last, min_frame, now) == 0 {
            (
                if self.full {
                    Drawing::Full
                } else {
                    Drawing::Overlay
                },
                none,
            )
        } else {
            (Drawing::Nothing, self)
        }
    }

    /// Decides what is drawn now.
    pub fn decide(
        &mut self,
        help: bool,
        help_changed: bool,
        visible: bool,
        last: Option<u64>,
        min_frame: u64,
        now: u64,
    ) -> (r: Drawing)
        ensures
            (r, *final(self)) == old(self).due(help, help_changed, visible, last, min_frame, now),
    {
        if help {
            self.full = false;
            self.overlay = false;
            return if help_changed {
                Drawing::Help
            } else {
                Drawing::Nothing
            };
        }
        let ready = match last {
            Some(then) => time_left(min_frame, then, now) == 0,
            None => true,
        };
        if (self.full || self.overlay) && visible && ready {
            let full = self.full;
            self.full = false;
            self.overlay = false;
            if full {
                Drawing::Full
            } else {
                Drawing::Overlay
            }
        } else {
            Drawing::Nothing
        }
    }
}

/// The shorter of two times to wait; `None` is no limit.
pub open spec fn shorter(a: Option<nat>, b: Option<nat>) -> Option<nat> {
    match (a, b) {
        (Some(x), Some(y)) => Some(
            if x < y {
                x
            } else {
                y
            },
        ),
        (Some(x), None) => Some(x),
        (None, b) => b,
    }
}

/// A time that recurs: how often, and when it last was.
#[derive(Clone, Copy, Debug)]
pub struct Recurrence {
    pub interval: u64,
    pub last: u64,
}

/// How long to wait for input: no longer than until the image is to be shown again, until an image
/// that has to be drawn may be sent, and until the window is to be looked at again. An image that
/// has to be drawn counts only while the window is visible: nothing is drawn before that, so that
/// waiting for it would be in vain.
pub open spec fn waiting(
    refresh: Option<u64>,
    pending: Pending,
    visible: bool,
    last: Option<u64>,
    min_frame: u64,
    poll: Option<Recurrence>,
    now: u64,
) -> Option<nat> {
    let again = match refresh {
        Some(r) => Some(r as nat),
        None => None,
    };
    let draw = if pending.any() && visible {
        Some(until_next_image(last, min_frame, now))
    } else {
        None
    };
    let look = match poll {
        Some(p) => Some(left_of(p.interval, p.last, now)),
        None => None,
    };
    shorter(shorter(again, draw), look)
}

fn shorter_of(a: Option<u64>, b: u64) -> (r: u64)
    ensures
        Some(r as nat) == shorter(
            match a {
                Some(x) => Some(x as nat),
                None => None,
            },
            Some(b as nat),
        ),
{
    match a {
        Some(x) => if x < b {
            x
        } else {
            b
        },
        None => b,
    }
}

/// How long to wait for input. `None` is as long as it takes.
pub fn wait_time(
    refresh: Option<u64>,
    pending: &Pending,
    visible: bool,
    last: Option<u64>,
    min_frame: u64,
    poll: Option<Recurrence>,
    now: u64,
) -> (r: Option<u64>)
    ensures
        (match r {
            Some(w) => Some(w as nat),
            None => None,
        }) == waiting(refresh, *pending, visible, last, min_frame, poll, now),
{
    let mut w: Option<u64> = refresh;
    if (pending.full || pending.overlay) && visible {
        let left: u64 = match last {
            Some(then) => time_left(min_frame, then, now),
            None => 0,
        };
        w = Some(shorter_of(w, left));
    }
    if let Some(p) = poll {
        w = Some(shorter_of(w, time_left(p.interval, p.last, now)));
    }
    w
}

/// Whether a recurring time has come.
pub fn is_due(interval: u64, last: u64, now: u64) -> (r: bool)
    ensures
        r == (elapsed(last, now) >= interval),
{
    time_left(interval, last, now) == 0
}

/// Whether the image is to be shown again: from time to time, unless the list of keys is shown.
pub fn redraw_due(refresh: Option<u64>, help: bool, last: u64, now: u64) -> (r: bool)
    ensures
        r == (refresh matches Some(interval) && !help && elapsed(last, now) >= interval),
{
    match refresh {
        Some(interval) => !help && is_due(interval, last, now),
        None => false,
    }
}

/// The window was looked at: `seen` says whether it is visible, if there is telling. When it is no
/// longer visible the image has to be cleared away; when it is visible again the page has to be
/// drawn. Whether to clear the image away.
pub fn on_visibility(seen: Option<bool>, visible: &mut bool, pending: &mut Pending) -> (r: bool)
    ensures
        r == (seen == Some(false) && *old(visible)),
        *final(visible) == (match seen {
            Some(v) => v,
            None => *old(visible),
        }),
        *final(pending) == (if seen == Some(true) && !*old(visible) {
            Pending { full: true, ..*old(pending) }
        } else {
            *old(pending)
        }),
{
    match seen {
        Some(v) => {
            if !v && *visible {
                *visible = false;
                true
            } else if v && !*visible {
                *visible = true;
                pending.full = true;
                false
            } else {
                false
            }
        },
        None => false,
    }
}

/// Whether the window of the pane is seen, by what tmux answered. Without an answer there is no
/// telling.
pub fn window_seen(answer: Option<&str>) -> (r: Option<bool>)
    ensures
        r == (match answer {
            Some(a) => Some(text::trimmed(a@) == "1"@),
            None => None,
        }),
{
    match answer {
        Some(a) => {
            let cs = chars_of(a);
            Some(text::is_text(trim(cs.as_slice()), "1"))
        },
        None => None,
    }
}

/// While text is selected, no key changes what part of which page is shown, so that the page can be
/// shown as it was last drawn.
pub proof fn law_selecting_keeps_the_view<T: Copy, C: Fn(Glyph<T>, Glyph<T>) -> u32>(
    before: ViewState<T>,
    cm: copy::CopyMode<T>,
    key: Key,
    cost: C,
    after: ViewState<T>,
    command: Command,
)
    requires
        copy_key_done(before, cm, key, cost, after, command),
    ensures
        after == (ViewState { copy: after.copy, status: after.status, ..before }),
        !(command is Quit),
{
}

/// An image is sent only when `min_frame` has passed since the last.
pub proof fn law_images_keep_their_distance(
    p: Pending,
    help: bool,
    help_changed: bool,
    visible: bool,
    then: u64,
    min_frame: u64,
    now: u64,
)
    requires
        ({
            let d = p.due(help, help_changed, visible, Some(then), min_frame, now).0;
            d == Drawing::Full || d == Drawing::Overlay
        }),
    ensures
        elapsed(then, now) >= min_frame,
        visible,
        !help,
{
}

/// What has to be drawn is not lost: it is kept until it is drawn, or until the list of keys is
/// shown, after which the page is drawn whole.
pub proof fn law_nothing_pending_is_lost(
    p: Pending,
    help_changed: bool,
    visible: bool,
    last: Option<u64>,
    min_frame: u64,
    now: u64,
)
    requires
        p.any(),
    ensures
        ({
            let (d, after) = p.due(false, help_changed, visible, last, min_frame, now);
            d == Drawing::Nothing ==> after == p
        }),
        p.full && p.due(false, help_changed, visible, last, min_frame, now).0 != Drawing::Nothing
            ==> p.due(false, help_changed, visible, last, min_frame, now).0 == Drawing::Full,
{
}

/// While the window is not visible, what has to be drawn does not shorten the wait.
pub proof fn law_hidden_window_waits(
    refresh: Option<u64>,
    p: Pending,
    q: Pending,
    last: Option<u64>,
    min_frame: u64,
    poll: Option<Recurrence>,
    now: u64,
)
    ensures
        waiting(refresh, p, false, last, min_frame, poll, now) == waiting(
            refresh,
            q,
            false,
            last,
            min_frame,
            poll,
            now,
        ),
{
}

/// The wait ends no later than an image that has to be drawn may be sent, and when it ends then, the
/// image is drawn. The last image was sent at some time before.
pub proof fn law_wait_ends_in_time(
    refresh: Option<u64>,
    p: Pending,
    last: Option<u64>,
    min_frame: u64,
    poll: Option<Recurrence>,
    now: u64,
)
    requires
        p.any(),
        last matches Some(then) ==> then <= now,
    ensures
        waiting(refresh, p, true, last, min_frame, poll, now) matches Some(w) && w
            <= until_next_image(last, min_frame, now),
        forall|later: u64|
            later >= now + until_next_image(last, min_frame, now) ==> (#[trigger] p.due(
                false,
                false,
                true,
                last,
                min_frame,
                later,
            )).0 != Drawing::Nothing,
{
}

/// Whether a key copies what is selected: return and `y`.
pub open spec fn copies(key: Key) -> bool {
    key.code == keys::KeyCode::Enter || key.code == keys::KeyCode::Char('y')
}

/// Whether a key ends selecting without copying: escape, `q` and Ctrl-C.
pub open spec fn leaves(key: Key) -> bool {
    key.code == keys::KeyCode::Esc || key.code == keys::KeyCode::Char('q') || (key.ctrl && key.code
        == keys::KeyCode::Char('c'))
}

/// What is copied with a key is what was selected, and selecting ends with it. The message tells how
/// many characters it has.
pub proof fn law_key_copies_the_selection<T: Copy, C: Fn(Glyph<T>, Glyph<T>) -> u32>(
    before: ViewState<T>,
    cm: copy::CopyMode<T>,
    key: Key,
    cost: C,
    after: ViewState<T>,
    command: Command,
)
    requires
        copy_key_done(before, cm, key, cost, after, command),
    ensures
        copies(key) ==> {
            &&& command matches Command::Copy(s) && s@ == cm.selected()
            &&& after.copy is None
            &&& after.status matches Some(m) && m@ == "copied "@ + text::decimal(
                cm.selected().len(),
            ) + " chars"@
        },
        !copies(key) ==> command is Nothing && after.status == before.status,
        leaves(key) ==> after.copy is None,
        after.copy is None ==> copies(key) || leaves(key) || before.copy is None,
        before.copy == Some(cm) ==> (after.copy matches Some(moved) ==> cm.same_page(moved)),
{
    copy::law_what_a_key_does_says_which_it_is(key);
}

/// Which command an action leaves to be done, and what it calls for: only quitting quits, only the
/// list of keys is shown or hidden, and everything else is drawn as the page or over it. While the
/// list is shown, no action but quitting does anything but hide it.
pub proof fn law_each_action_calls_for_its_own<T: Copy, P: Fn((T, T), T, T, i32, i32) -> (T, T)>(
    before: ViewState<T>,
    calls: Burst,
    action: Option<Action>,
    pages: usize,
    pan: P,
    after: ViewState<T>,
    calls_after: Burst,
    command: Command,
)
    requires
        action_done(before, calls, action, pages, pan, after, calls_after, command),
    ensures
        command is Quit <==> action == Some(Action::Quit),
        command is ReadText <==> action == Some(Action::EnterCopyMode) && !before.help,
        command is ExportPdf <==> action == Some(Action::ExportPdf) && !before.help,
        !(command is Copy),
        calls_after.quit == (calls.quit || action == Some(Action::Quit)),
        calls_after.reload == calls.reload,
        after.help != before.help <==> action == Some(Action::ToggleHelp) || (before.help && action
            != Some(Action::Quit)),
        calls_after.help_changed == (calls.help_changed || after.help != before.help),
        calls_after.overlay_only == (calls.overlay_only || (action == Some(Action::ExportPdf)
            && !before.help)),
        calls_after.dirty == (calls.dirty || (!before.help && action is Some && !(action->0 is Quit
            || action->0 is ToggleHelp || action->0 is ExportPdf))),
        before.help ==> after == (ViewState { help: after.help, ..before }),
        after != before ==> calls_after.dirty || calls_after.help_changed,
{
}

/// A line of the compiler that speaks of an error is shown from its first character on, as it is but
/// for the white space around it, up to 200 characters. One that tells of success takes away what was
/// shown, and no other line changes anything.
pub proof fn law_errors_are_shown(line: Seq<char>)
    ensures
        ({
            let t = text::trimmed(line);
            let error = text::occurs(text::lowered(t), "error"@);
            let done = text::occurs(text::lowered(t), "compiled successfully"@);
            &&& error ==> (compiler_message(line) matches Some(shown) && shown == t.take(
                shown.len() as int,
            ) && shown.len() <= 200 && shown.len() <= t.len() && (shown.len() == 200 || shown.len()
                == t.len()))
            &&& !error && done ==> compiler_message(line) == Some(Seq::<char>::empty())
            &&& !error && !done ==> compiler_message(line) is None
        }),
{
    let t = text::trimmed(line);
    assert(t.take(t.len() as int) =~= t);
    if t.len() > 200 {
        assert(t.take(200).len() == 200);
    }
}

/// What is left of a time that began: it and what has passed make up the whole, and nothing is left
/// when the whole has passed.
pub proof fn law_time_left(interval: u64, since: u64, now: u64)
    ensures
        now >= since ==> left_of(interval, since, now) == (if now - since < interval {
            since + interval - now
        } else {
            0
        }),
        now < since ==> left_of(interval, since, now) == interval,
        now >= since ==> elapsed(since, now) == now - since,
{
}

/// When what is drawn: the list of keys when it was just shown; the page, or what lies over it, when
/// there is something to draw, the window is visible, and the last image was sent long enough ago;
/// and otherwise nothing. What is drawn is no longer to be drawn.
pub proof fn law_what_is_drawn_when(
    p: Pending,
    help: bool,
    help_changed: bool,
    visible: bool,
    last: Option<u64>,
    min_frame: u64,
    now: u64,
)
    requires
        last matches Some(then) ==> then <= now,
    ensures
        ({
            let (d, after) = p.due(help, help_changed, visible, last, min_frame, now);
            let soon = last matches Some(then) && now - then < min_frame;
            &&& d == Drawing::Help <==> help && help_changed
            &&& d == Drawing::Full <==> !help && p.full && visible && !soon
            &&& d == Drawing::Overlay <==> !help && !p.full && p.overlay && visible && !soon
            &&& d != Drawing::Nothing || help ==> !after.full && !after.overlay
            &&& d == Drawing::Nothing && !help ==> after == p
        }),
{
}

/// The wait for input is as long as the shortest of the times that there are, and without limit only
/// where there is none: the time until the image is shown again, until an image may be sent, where
/// one has to be and can be seen, and until the window is looked at.
pub proof fn law_wait_is_the_shortest(
    refresh: Option<u64>,
    p: Pending,
    visible: bool,
    last: Option<u64>,
    min_frame: u64,
    poll: Option<Recurrence>,
    now: u64,
)
    ensures
        ({
            let w = waiting(refresh, p, visible, last, min_frame, poll, now);
            let draws = visible && (p.full || p.overlay);
            let image = match last {
                Some(then) => left_of(min_frame, then, now),
                None => 0,
            };
            &&& w is None <==> refresh is None && !draws && poll is None
            &&& w matches Some(n) ==> {
                &&& refresh matches Some(r) ==> n <= r
                &&& draws ==> n <= image
                &&& poll matches Some(q) ==> n <= left_of(q.interval, q.last, now)
                &&& (refresh matches Some(r) && n == r) || (draws && n == image) || (
                poll matches Some(q) && n == left_of(q.interval, q.last, now))
            }
        }),
{
}

} // verus!

//! Keys: how they are written, what they do, and how they are bound.
use crate::text;
use crate::text::{ascii_lower, chars_of, is_text, starts_with, trim};
use crate::worker::Fit;
use vstd::prelude::*;
use vstd::slice::slice_subrange;

verus! {

/// A key of the keyboard.
#[derive(Clone, Copy, Debug, PartialEq, Eq, Structural)]
pub enum KeyCode {
    Char(char),
    Left,
    Right,
    Up,
    Down,
    Tab,
    Enter,
    Esc,
    Backspace,
    Delete,
    PageUp,
    PageDown,
    Home,
    End,
    /// A key that cannot be bound.
    Other,
}

/// A key that was pressed, and whether Ctrl was held.
#[derive(Clone, Copy, Debug, PartialEq, Eq, Structural)]
pub struct Key {
    pub code: KeyCode,
    pub ctrl: bool,
}

/// What a key does.
#[derive(Clone, Copy, Debug, PartialEq, Eq, Structural)]
pub enum Action {
    Quit,
    ZoomIn,
    ZoomOut,
    ZoomReset,
    /// Moves the view, in the direction of the two signs.
    Pan(i32, i32),
    NextPage,
    PrevPage,
    FirstPage,
    LastPage,
    /// Fits the content.
    FitContent(Fit),
    /// Shows or hides the list of keys.
    ToggleHelp,
    /// Starts selecting text.
    EnterCopyMode,
    ExportPdf,
}

// ---------------------------------------------------------------------------
// How keys are written.

/// The key that a name in lower case stands for.
pub open spec fn named_key(name: Seq<char>) -> Option<KeyCode> {
    if name == "left"@ {
        Some(KeyCode::Left)
    } else if name == "right"@ {
        Some(KeyCode::Right)
    } else if name == "up"@ {
        Some(KeyCode::Up)
    } else if name == "down"@ {
        Some(KeyCode::Down)
    } else if name == "space"@ {
        Some(KeyCode::Char(' '))
    } else if name == "tab"@ {
        Some(KeyCode::Tab)
    } else if name == "enter"@ || name == "return"@ {
        Some(KeyCode::Enter)
    } else if name == "esc"@ || name == "escape"@ {
        Some(KeyCode::Esc)
    } else if name == "backspace"@ {
        Some(KeyCode::Backspace)
    } else if name == "delete"@ || name == "del"@ {
        Some(KeyCode::Delete)
    } else if name == "pageup"@ || name == "pgup"@ {
        Some(KeyCode::PageUp)
    } else if name == "pagedown"@ || name == "pgdn"@ {
        Some(KeyCode::PageDown)
    } else if name == "home"@ {
        Some(KeyCode::Home)
    } else if name == "end"@ {
        Some(KeyCode::End)
    } else {
        None
    }
}

/// The key that is written without Ctrl: a name, in any case, or the one character of the key.
pub open spec fn plain_key(s: Seq<char>) -> Option<KeyCode> {
    match named_key(text::lowered(s)) {
        Some(code) => Some(code),
        None => if s.len() == 1 {
            Some(KeyCode::Char(s[0]))
        } else {
            None
        },
    }
}

/// `code`, if there is one, with Ctrl held or not.
pub open spec fn with_ctrl(code: Option<KeyCode>, ctrl: bool) -> Option<Key> {
    match code {
        Some(code) => Some(Key { code, ctrl }),
        None => None,
    }
}

/// The key that a text such as `q`, `left` or `ctrl+c` stands for. White space around it is
/// ignored.
pub open spec fn written_key(s: Seq<char>) -> Option<Key> {
    let t = text::trimmed(s);
    if text::begins_with(t, "ctrl+"@) || text::begins_with(t, "Ctrl+"@) {
        with_ctrl(plain_key(t.skip(5)), true)
    } else {
        with_ctrl(plain_key(t), false)
    }
}

fn parse_named(name: &[char]) -> (r: Option<KeyCode>)
    ensures
        r == named_key(name@),
{
    if is_text(name, "left") {
        Some(KeyCode::Left)
    } else if is_text(name, "right") {
        Some(KeyCode::Right)
    } else if is_text(name, "up") {
        Some(KeyCode::Up)
    } else if is_text(name, "down") {
        Some(KeyCode::Down)
    } else if is_text(name, "space") {
        Some(KeyCode::Char(' '))
    } else if is_text(name, "tab") {
        Some(KeyCode::Tab)
    } else if is_text(name, "enter") || is_text(name, "return") {
        Some(KeyCode::Enter)
    } else if is_text(name, "esc") || is_text(name, "escape") {
        Some(KeyCode::Esc)
    } else if is_text(name, "backspace") {
        Some(KeyCode::Backspace)
    } else if is_text(name, "delete") || is_text(name, "del") {
        Some(KeyCode::Delete)
    } else if is_text(name, "pageup") || is_text(name, "pgup") {
        Some(KeyCode::PageUp)
    } else if is_text(name, "pagedown") || is_text(name, "pgdn") {
        Some(KeyCode::PageDown)
    } else if is_text(name, "home") {
        Some(KeyCode::Home)
    } else if is_text(name, "end") {
        Some(KeyCode::End)
    } else {
        None
    }
}

fn parse_plain(s: &[char]) -> (r: Option<KeyCode>)
    ensures
        r == plain_key(s@),
{
    let lower = ascii_lower(s);
    let named = parse_named(lower.as_slice());
    if named.is_some() {
        return named;
    }
    if s.len() == 1 {
        Some(KeyCode::Char(s[0]))
    } else {
        None
    }
}

/// Reads a key such as `q`, `left` or `ctrl+c`.
pub fn parse_key(spec: &str) -> (r: Option<Key>)
    ensures
        r == written_key(spec@),
{
    let cs = chars_of(spec);
    let t = trim(cs.as_slice());
    let small = chars_of("ctrl+");
    let large = chars_of("Ctrl+");
    let ctrl = starts_with(t, small.as_slice()) || starts_with(t, large.as_slice());
    proof {
        reveal_strlit("ctrl+");
        reveal_strlit("Ctrl+");
    }
    let end: usize = t.len();
    let rest = if ctrl {
        slice_subrange(t, 5, end)
    } else {
        t
    };
    assert(ctrl ==> rest@ =~= t@.skip(5));
    match parse_plain(rest) {
        Some(code) => Some(Key { code, ctrl }),
        None => None,
    }
}

// ---------------------------------------------------------------------------
// The actions that can be bound.

/// An action that can be bound: its name in the configuration, and the keys that it has unless they
/// are configured.
pub struct ActionSpec {
    pub name: Seq<char>,
    pub action: Action,
    pub keys: Seq<Seq<char>>,
}

/// The actions that can be bound, in the order in which they are bound and listed.
pub open spec fn actions() -> Seq<ActionSpec> {
    seq![
        ActionSpec { name: "zoom_in"@, action: Action::ZoomIn, keys: seq!["+"@, "="@] },
        ActionSpec { name: "zoom_out"@, action: Action::ZoomOut, keys: seq!["-"@, "_"@] },
        ActionSpec { name: "zoom_reset"@, action: Action::ZoomReset, keys: seq!["0"@] },
        ActionSpec {
            name: "fit_width"@,
            action: Action::FitContent(Fit::Width),
            keys: seq!["w"@],
        },
        ActionSpec {
            name: "fit_height"@,
            action: Action::FitContent(Fit::Height),
            keys: seq!["v"@],
        },
        ActionSpec { name: "pan_left"@, action: Action::Pan(-1i32, 0), keys: seq!["left"@] },
        ActionSpec { name: "pan_right"@, action: Action::Pan(1, 0), keys: seq!["right"@] },
        ActionSpec { name: "pan_up"@, action: Action::Pan(0, -1i32), keys: seq!["up"@] },
        ActionSpec { name: "pan_down"@, action: Action::Pan(0, 1), keys: seq!["down"@] },
        ActionSpec {
            name: "next_page"@,
            action: Action::NextPage,
            keys: seq!["j"@, "space"@, "pagedown"@],
        },
        ActionSpec {
            name: "prev_page"@,
            action: Action::PrevPage,
            keys: seq!["k"@, "pageup"@, "backspace"@],
        },
        ActionSpec { name: "first_page"@, action: Action::FirstPage, keys: seq!["h"@] },
        ActionSpec { name: "last_page"@, action: Action::LastPage, keys: seq!["l"@] },
        ActionSpec { name: "copy_mode"@, action: Action::EnterCopyMode, keys: seq!["y"@] },
        ActionSpec { name: "export_pdf"@, action: Action::ExportPdf, keys: seq!["e"@] },
        ActionSpec { name: "help"@, action: Action::ToggleHelp, keys: seq!["?"@] },
        ActionSpec {
            name: "quit"@,
            action: Action::Quit,
            keys: seq!["q"@, "esc"@, "ctrl+c"@],
        },
    ]
}

/// An action with its name and the keys that are bound to it, as they are written.
pub struct Binding {
    pub name: &'static str,
    pub action: Action,
    pub keys: Vec<String>,
}

/// What a binding says.
pub open spec fn binding_spec(b: Binding) -> ActionSpec {
    ActionSpec { name: b.name@, action: b.action, keys: text::texts(b.keys@) }
}

/// What bindings say.
pub open spec fn binding_specs(bs: Seq<Binding>) -> Seq<ActionSpec> {
    Seq::new(bs.len(), |i: int| binding_spec(bs[i]))
}

fn bind1(name: &'static str, action: Action, a: &str) -> (r: Binding)
    ensures
        binding_spec(r) == (ActionSpec { name: name@, action, keys: seq![a@] }),
{
    let mut keys: Vec<String> = Vec::new();
    keys.push(a.to_owned());
    assert(text::texts(keys@) =~= seq![a@]);
    Binding { name, action, keys }
}

fn bind2(name: &'static str, action: Action, a: &str, b: &str) -> (r: Binding)
    ensures
        binding_spec(r) == (ActionSpec { name: name@, action, keys: seq![a@, b@] }),
{
    let mut keys: Vec<String> = Vec::new();
    keys.push(a.to_owned());
    keys.push(b.to_owned());
    assert(text::texts(keys@) =~= seq![a@, b@]);
    Binding { name, action, keys }
}

fn bind3(name: &'static str, action: Action, a: &str, b: &str, c: &str) -> (r: Binding)
    ensures
        binding_spec(r) == (ActionSpec { name: name@, action, keys: seq![a@, b@, c@] }),
{
    let mut keys: Vec<String> = Vec::new();
    keys.push(a.to_owned());
    keys.push(b.to_owned());
    keys.push(c.to_owned());
    assert(text::texts(keys@) =~= seq![a@, b@, c@]);
    Binding { name, action, keys }
}

/// The actions that can be bound, with the keys that they have unless they are configured.
pub fn default_bindings() -> (r: Vec<Binding>)
    ensures
        binding_specs(r@) == actions(),
{
    let mut out: Vec<Binding> = Vec::new();
    out.push(bind2("zoom_in", Action::ZoomIn, "+", "="));
    out.push(bind2("zoom_out", Action::ZoomOut, "-", "_"));
    out.push(bind1("zoom_reset", Action::ZoomReset, "0"));
    out.push(bind1("fit_width", Action::FitContent(Fit::Width), "w"));
    out.push(bind1("fit_height", Action::FitContent(Fit::Height), "v"));
    out.push(bind1("pan_left", Action::Pan(-1, 0), "left"));
    out.push(bind1("pan_right", Action::Pan(1, 0), "right"));
    out.push(bind1("pan_up", Action::Pan(0, -1), "up"));
    out.push(bind1("pan_down", Action::Pan(0, 1), "down"));
    out.push(bind3("next_page", Action::NextPage, "j", "space", "pagedown"));
    out.push(bind3("prev_page", Action::PrevPage, "k", "pageup", "backspace"));
    out.push(bind1("first_page", Action::FirstPage, "h"));
    out.push(bind1("last_page", Action::LastPage, "l"));
    out.push(bind1("copy_mode", Action::EnterCopyMode, "y"));
    out.push(bind1("export_pdf", Action::ExportPdf, "e"));
    out.push(bind1("help", Action::ToggleHelp, "?"));
    out.push(bind3("quit", Action::Quit, "q", "esc", "ctrl+c"));
    assert(binding_specs(out@) =~= actions());
    out
}

// ---------------------------------------------------------------------------
// Bound keys.

/// The keys that the configuration gives to the action of a name.
pub struct KeyOverride {
    pub name: String,
    pub keys: Vec<String>,
}

/// The keys that are configured for a name, if they are. If they are more than once, the last time
/// counts.
pub open spec fn configured(overrides: Seq<KeyOverride>, name: Seq<char>) -> Option<Seq<Seq<char>>>
    decreases overrides.len(),
{
    if overrides.len() == 0 {
        None
    } else if overrides.last().name@ == name {
        Some(text::texts(overrides.last().keys@))
    } else {
        configured(overrides.drop_last(), name)
    }
}

/// An action with the keys that are configured for it, or else its own.
pub open spec fn effective(a: ActionSpec, overrides: Seq<KeyOverride>) -> ActionSpec {
    match configured(overrides, a.name) {
        Some(keys) => ActionSpec { keys, ..a },
        None => a,
    }
}

/// The actions with the keys that are configured for them, or else their own.
pub open spec fn effective_actions(overrides: Seq<KeyOverride>) -> Seq<ActionSpec> {
    Seq::new(actions().len(), |i: int| effective(actions()[i], overrides))
}

/// `bound` with the key `s` bound to `action`, if `s` is a key.
pub open spec fn bind_key(bound: Map<Key, Action>, s: Seq<char>, action: Action) -> Map<Key, Action> {
    match written_key(s) {
        Some(key) => bound.insert(key, action),
        None => bound,
    }
}

/// `bound` with the keys of an action bound to it, one after the other.
pub open spec fn bind_keys(bound: Map<Key, Action>, keys: Seq<Seq<char>>, action: Action) -> Map<
    Key,
    Action,
>
    decreases keys.len(),
{
    if keys.len() == 0 {
        bound
    } else {
        bind_key(bind_keys(bound, keys.drop_last(), action), keys.last(), action)
    }
}

/// The keys of the actions, bound one action after the other: a key of two actions is bound to the
/// later.
pub open spec fn bind_actions(specs: Seq<ActionSpec>) -> Map<Key, Action>
    decreases specs.len(),
{
    if specs.len() == 0 {
        Map::empty()
    } else {
        bind_keys(bind_actions(specs.drop_last()), specs.last().keys, specs.last().action)
    }
}

/// What a list of bound keys binds: the last entry of a key counts.
pub open spec fn entries_map(entries: Seq<(Key, Action)>) -> Map<Key, Action>
    decreases entries.len(),
{
    if entries.len() == 0 {
        Map::empty()
    } else {
        entries_map(entries.drop_last()).insert(entries.last().0, entries.last().1)
    }
}

/// The keys, as they are written, that are no keys.
pub open spec fn not_keys(keys: Seq<Seq<char>>) -> Seq<Seq<char>>
    decreases keys.len(),
{
    if keys.len() == 0 {
        seq![]
    } else if written_key(keys.last()) is None {
        not_keys(keys.drop_last()).push(keys.last())
    } else {
        not_keys(keys.drop_last())
    }
}

/// Which keys do what.
pub struct Keymap {
    entries: Vec<(Key, Action)>,
    bindings: Vec<Binding>,
}

impl View for Keymap {
    type V = Map<Key, Action>;

    closed spec fn view(&self) -> Map<Key, Action> {
        entries_map(self.entries@)
    }
}

fn find_override<'a>(overrides: &'a Vec<KeyOverride>, name: &str) -> (r: Option<&'a Vec<String>>)
    ensures
        (match r {
            Some(keys) => Some(text::texts(keys@)),
            None => None,
        }) == configured(overrides@, name@),
{
    let mut i: usize = overrides.len();
    assert(overrides@.take(i as int) =~= overrides@);
    while i > 0
        invariant
            i <= overrides@.len(),
            configured(overrides@, name@) == configured(overrides@.take(i as int), name@),
        decreases i,
    {
        let o = &overrides[i - 1];
        assert(overrides@.take(i as int).drop_last() =~= overrides@.take(i - 1));
        let cs = chars_of(o.name.as_str());
        if is_text(cs.as_slice(), name) {
            return Some(&o.keys);
        }
        i -= 1;
    }
    None
}

fn copy_texts(v: &Vec<String>) -> (r: Vec<String>)
    ensures
        text::texts(r@) == text::texts(v@),
{
    let mut out: Vec<String> = Vec::new();
    for i in 0..v.len()
        invariant
            out@.len() == i,
            forall|k: int| 0 <= k < i ==> (#[trigger] out@[k])@ == v@[k]@,
    {
        out.push(v[i].as_str().to_owned());
    }
    assert(text::texts(out@) =~= text::texts(v@));
    out
}

fn bind_all(entries: &mut Vec<(Key, Action)>, keys: &Vec<String>, action: Action)
    ensures
        entries_map(final(entries)@) == bind_keys(
            entries_map(old(entries)@),
            text::texts(keys@),
            action,
        ),
{
    let ghost all = text::texts(keys@);
    let ghost start = entries_map(entries@);
    for i in 0..keys.len()
        invariant
            all == text::texts(keys@),
            entries_map(entries@) == bind_keys(start, all.take(i as int), action),
    {
        assert(all.take(i + 1).drop_last() =~= all.take(i as int));
        let ghost before = entries@;
        if let Some(key) = parse_key(keys[i].as_str()) {
            entries.push((key, action));
            assert(entries@.drop_last() =~= before);
        }
    }
    assert(all.take(all.len() as int) =~= all);
}

impl Keymap {
    /// The actions with the keys that are bound to them, as they are written.
    pub closed spec fn listed(self) -> Seq<ActionSpec> {
        binding_specs(self.bindings@)
    }

    /// The keys of the actions, those of the configuration in place of an action's own.
    pub fn build(overrides: &Vec<KeyOverride>) -> (r: Self)
        ensures
            r.listed() == effective_actions(overrides@),
            r@ == bind_actions(effective_actions(overrides@)),
    {
        let defaults = default_bindings();
        let ghost specs = effective_actions(overrides@);
        let mut entries: Vec<(Key, Action)> = Vec::new();
        let mut bindings: Vec<Binding> = Vec::new();
        for i in 0..defaults.len()
            invariant
                binding_specs(defaults@) == actions(),
                specs == effective_actions(overrides@),
                binding_specs(bindings@) =~= specs.take(i as int),
                entries_map(entries@) == bind_actions(specs.take(i as int)),
        {
            let d = &defaults[i];
            assert(binding_spec(*d) == actions()[i as int]);
            let keys = match find_override(overrides, d.name) {
                Some(keys) => copy_texts(keys),
                None => copy_texts(&d.keys),
            };
            bind_all(&mut entries, &keys, d.action);
            let ghost before = binding_specs(bindings@);
            let b = Binding { name: d.name, action: d.action, keys };
            assert(binding_spec(b) == specs[i as int]);
            let ghost added = binding_spec(b);
            bindings.push(b);
            assert(binding_specs(bindings@) =~= before.push(added));
            assert(specs.take(i + 1) =~= specs.take(i as int).push(specs[i as int]));
            assert(specs.take(i + 1).drop_last() =~= specs.take(i as int));
        }
        assert(specs.take(specs.len() as int) =~= specs);
        Keymap { entries, bindings }
    }

    /// What a key does.
    pub fn action(&self, key: &Key) -> (r: Option<Action>)
        ensures
            r == (if self@.dom().contains(*key) {
                Some(self@[*key])
            } else {
                None
            }),
    {
        let mut i: usize = self.entries.len();
        assert(self.entries@.take(i as int) =~= self.entries@);
        while i > 0
            invariant
                i <= self.entries@.len(),
                ({
                    let part = entries_map(self.entries@.take(i as int));
                    &&& self@.dom().contains(*key) == part.dom().contains(*key)
                    &&& part.dom().contains(*key) ==> self@[*key] == part[*key]
                }),
            decreases i,
        {
            assert(self.entries@.take(i as int).drop_last() =~= self.entries@.take(i - 1));
            let (k, a) = self.entries[i - 1];
            if k == *key {
                return Some(a);
            }
            i -= 1;
        }
        None
    }

    /// The actions with the keys that are bound to them, as they are written.
    pub fn bindings(&self) -> (r: &Vec<Binding>)
        ensures
            binding_specs(r@) == self.listed(),
    {
        &self.bindings
    }
}

/// The keys of a binding, as they are written, that are no keys.
pub fn unknown_keys(binding: &Binding) -> (r: Vec<String>)
    ensures
        text::texts(r@) == not_keys(binding_spec(*binding).keys),
{
    let ghost all = text::texts(binding.keys@);
    let mut out: Vec<String> = Vec::new();
    assert(text::texts(out@) =~= not_keys(all.take(0)));
    for i in 0..binding.keys.len()
        invariant
            all == text::texts(binding.keys@),
            text::texts(out@) == not_keys(all.take(i as int)),
    {
        assert(all.take(i + 1).drop_last() =~= all.take(i as int));
        let k = binding.keys[i].as_str();
        if parse_key(k).is_none() {
            let ghost before = text::texts(out@);
            out.push(k.to_owned());
            assert(text::texts(out@) =~= before.push(k@));
        }
    }
    assert(all.take(all.len() as int) =~= all);
    out
}

/// Without a configuration every action has its own keys.
pub proof fn law_actions_have_their_own_keys()
    ensures
        effective_actions(seq![]) == actions(),
{
    assert(effective_actions(seq![]) =~= actions());
}

/// Configured keys take the place of an action's own keys, and leave the other actions theirs.
pub proof fn law_configured_keys_replace(overrides: Seq<KeyOverride>, o: KeyOverride, i: int)
    requires
        0 <= i < actions().len(),
    ensures
        actions()[i].name == o.name@ ==> effective_actions(overrides.push(o))[i].keys == text::texts(
            o.keys@,
        ),
        actions()[i].name != o.name@ ==> effective_actions(overrides.push(o))[i]
            == effective_actions(overrides)[i],
{
    assert(overrides.push(o).drop_last() =~= overrides);
}

/// A key that is bound is bound to an action that lists it, and a key that an action lists is
/// bound.
pub proof fn law_bound_keys_are_listed(specs: Seq<ActionSpec>, key: Key)
    ensures
        bind_actions(specs).dom().contains(key) ==> exists|i: int|
            0 <= i < specs.len() && lists(#[trigger] specs[i], key) && bind_actions(specs)[key]
                == specs[i].action,
        forall|i: int|
            0 <= i < specs.len() && lists(#[trigger] specs[i], key) ==> bind_actions(
                specs,
            ).dom().contains(key),
    decreases specs.len(),
{
    if specs.len() > 0 {
        let rest = specs.drop_last();
        let last = specs.last();
        let before = bind_actions(rest);
        law_bound_keys_are_listed(rest, key);
        lemma_bind_keys(before, last.keys, last.action, key);
        if lists(last, key) {
            assert(specs[specs.len() - 1] == last);
        } else if before.dom().contains(key) {
            let i = choose|i: int|
                0 <= i < rest.len() && lists(#[trigger] rest[i], key) && before[key]
                    == rest[i].action;
            assert(specs[i] == rest[i]);
        }
        assert forall|i: int| 0 <= i < specs.len() && lists(#[trigger] specs[i], key) implies
            bind_actions(specs).dom().contains(key) by {
            if i < rest.len() {
                assert(rest[i] == specs[i]);
            }
        }
    }
}

/// A key that has no name and no character of its own cannot be bound.
pub proof fn law_other_keys_are_not_bound(specs: Seq<ActionSpec>, ctrl: bool)
    ensures
        !bind_actions(specs).dom().contains(Key { code: KeyCode::Other, ctrl }),
{
    law_bound_keys_are_listed(specs, Key { code: KeyCode::Other, ctrl });
}

/// Whether one of the keys of an action, as they are written, is `key`.
pub open spec fn lists(a: ActionSpec, key: Key) -> bool {
    exists|k: int| 0 <= k < a.keys.len() && written_key(#[trigger] a.keys[k]) == Some(key)
}

proof fn lemma_bind_keys(bound: Map<Key, Action>, keys: Seq<Seq<char>>, action: Action, key: Key)
    ensures
        ({
            let named = exists|k: int|
                0 <= k < keys.len() && written_key(#[trigger] keys[k]) == Some(key);
            let after = bind_keys(bound, keys, action);
            &&& after.dom().contains(key) == (named || bound.dom().contains(key))
            &&& named ==> after[key] == action
            &&& !named && bound.dom().contains(key) ==> after[key] == bound[key]
        }),
    decreases keys.len(),
{
    if keys.len() > 0 {
        let rest = keys.drop_last();
        lemma_bind_keys(bound, rest, action, key);
        if written_key(keys.last()) == Some(key) {
            assert(written_key(keys[keys.len() - 1]) == Some(key));
        }
        if exists|k: int| 0 <= k < rest.len() && written_key(#[trigger] rest[k]) == Some(key) {
            let k = choose|k: int|
                0 <= k < rest.len() && written_key(#[trigger] rest[k]) == Some(key);
            assert(keys[k] == rest[k]);
        }
        if exists|k: int| 0 <= k < keys.len() && written_key(#[trigger] keys[k]) == Some(key) {
            let k = choose|k: int|
                0 <= k < keys.len() && written_key(#[trigger] keys[k]) == Some(key);
            if k < rest.len() {
                assert(rest[k] == keys[k]);
            }
        }
    }
}

// ---------------------------------------------------------------------------
// Which key is meant by which text.

proof fn lemma_names()
    ensures
        "left"@.len() == 4,
        "right"@.len() == 5,
        "up"@.len() == 2,
        "down"@.len() == 4,
        "space"@.len() == 5,
        "tab"@.len() == 3,
        "enter"@.len() == 5,
        "return"@.len() == 6,
        "esc"@.len() == 3,
        "escape"@.len() == 6,
        "backspace"@.len() == 9,
        "delete"@.len() == 6,
        "del"@.len() == 3,
        "pageup"@.len() == 6,
        "pgup"@.len() == 4,
        "pagedown"@.len() == 8,
        "pgdn"@.len() == 4,
        "home"@.len() == 4,
        "end"@.len() == 3,
        "left"@[0] == 'l',
        "down"@[0] == 'd',
        "pgup"@[2] == 'u',
        "pgdn"@[2] == 'd',
        "home"@[0] == 'h',
        "right"@[0] == 'r',
        "space"@[0] == 's',
        "enter"@[1] == 'n',
        "tab"@[0] == 't',
        "esc"@[1] == 's',
        "del"@[0] == 'd',
        "end"@[1] == 'n',
        "return"@[0] == 'r',
        "escape"@[0] == 'e',
        "delete"@[0] == 'd',
        "pageup"@[0] == 'p',
        "pgup"@[0] == 'p',
        "pgdn"@[0] == 'p',
        "enter"@[0] == 'e',
        "esc"@[0] == 'e',
        "end"@[0] == 'e',
{
    reveal_strlit("left");
    reveal_strlit("right");
    reveal_strlit("up");
    reveal_strlit("down");
    reveal_strlit("space");
    reveal_strlit("tab");
    reveal_strlit("enter");
    reveal_strlit("return");
    reveal_strlit("esc");
    reveal_strlit("escape");
    reveal_strlit("backspace");
    reveal_strlit("delete");
    reveal_strlit("del");
    reveal_strlit("pageup");
    reveal_strlit("pgup");
    reveal_strlit("pagedown");
    reveal_strlit("pgdn");
    reveal_strlit("home");
    reveal_strlit("end");
}

/// Which names a key has. A key that stands for a character is written as the character, but for the
/// space bar, which has a name besides.
pub proof fn law_names_of_keys(s: Seq<char>)
    ensures
        ({
            let name = text::lowered(s);
            &&& plain_key(s) == Some(KeyCode::Left) <==> name == "left"@
            &&& plain_key(s) == Some(KeyCode::Right) <==> name == "right"@
            &&& plain_key(s) == Some(KeyCode::Up) <==> name == "up"@
            &&& plain_key(s) == Some(KeyCode::Down) <==> name == "down"@
            &&& plain_key(s) == Some(KeyCode::Tab) <==> name == "tab"@
            &&& plain_key(s) == Some(KeyCode::Enter) <==> name == "enter"@ || name == "return"@
            &&& plain_key(s) == Some(KeyCode::Esc) <==> name == "esc"@ || name == "escape"@
            &&& plain_key(s) == Some(KeyCode::Backspace) <==> name == "backspace"@
            &&& plain_key(s) == Some(KeyCode::Delete) <==> name == "delete"@ || name == "del"@
            &&& plain_key(s) == Some(KeyCode::PageUp) <==> name == "pageup"@ || name == "pgup"@
            &&& plain_key(s) == Some(KeyCode::PageDown) <==> name == "pagedown"@ || name
                == "pgdn"@
            &&& plain_key(s) == Some(KeyCode::Home) <==> name == "home"@
            &&& plain_key(s) == Some(KeyCode::End) <==> name == "end"@
            &&& plain_key(s) != Some(KeyCode::Other)
        }),
        forall|c: char| #[trigger]
            plain_key(s) == Some(KeyCode::Char(c)) <==> s == seq![c] || (c == ' ' && text::lowered(s)
                == "space"@),
{
    lemma_names();
    assert(text::lowered(s).len() == s.len());
    assert forall|c: char| #[trigger] plain_key(s) == Some(KeyCode::Char(c)) <==> s == seq![c] || (c
        == ' ' && text::lowered(s) == "space"@) by {
        if s.len() == 1 {
            assert(s =~= seq![s[0]]);
        }
    }
}

/// A key that is written behind `ctrl+` or `Ctrl+` is the key that is written there, with Ctrl held,
/// and any other is the key without Ctrl. White space around a key is ignored.
pub proof fn law_ctrl_is_written_before_the_key(s: Seq<char>)
    requires
        s.len() > 0,
        !text::is_space(s.last()),
    ensures
        written_key("ctrl+"@ + s) == (match plain_key(s) {
            Some(code) => Some(Key { code, ctrl: true }),
            None => None,
        }),
        written_key("Ctrl+"@ + s) == written_key("ctrl+"@ + s),
        !text::is_space(s[0]) && !text::begins_with(s, "ctrl+"@) && !text::begins_with(s, "Ctrl+"@)
            ==> written_key(s) == (match plain_key(s) {
            Some(code) => Some(Key { code, ctrl: false }),
            None => None,
        }),
        written_key(text::trimmed(s)) == written_key(s),
{
    reveal_strlit("ctrl+");
    reveal_strlit("Ctrl+");
    let (a, b) = ("ctrl+"@ + s, "Ctrl+"@ + s);
    text::law_nothing_to_trim(a);
    text::law_nothing_to_trim(b);
    assert(a.subrange(0, 5) =~= "ctrl+"@);
    assert(b.subrange(0, 5) =~= "Ctrl+"@);
    assert(a.skip(5) =~= s);
    assert(b.skip(5) =~= s);
    if !text::is_space(s[0]) {
        text::law_nothing_to_trim(s);
    }
    let (i, j) = text::law_only_white_space_is_trimmed(s);
    text::law_nothing_to_trim(text::trimmed(s));
}

/// What a key does where nothing is configured.
pub open spec fn usual_action(key: Key) -> Option<Action> {
    if key.ctrl {
        if key.code == KeyCode::Char('c') {
            Some(Action::Quit)
        } else {
            None
        }
    } else {
        match key.code {
            KeyCode::Left => Some(Action::Pan(-1i32, 0)),
            KeyCode::Right => Some(Action::Pan(1, 0)),
            KeyCode::Up => Some(Action::Pan(0, -1i32)),
            KeyCode::Down => Some(Action::Pan(0, 1)),
            KeyCode::PageDown => Some(Action::NextPage),
            KeyCode::PageUp | KeyCode::Backspace => Some(Action::PrevPage),
            KeyCode::Esc => Some(Action::Quit),
            KeyCode::Char('+') | KeyCode::Char('=') => Some(Action::ZoomIn),
            KeyCode::Char('-') | KeyCode::Char('_') => Some(Action::ZoomOut),
            KeyCode::Char('0') => Some(Action::ZoomReset),
            KeyCode::Char('w') => Some(Action::FitContent(Fit::Width)),
            KeyCode::Char('v') => Some(Action::FitContent(Fit::Height)),
            KeyCode::Char('j') | KeyCode::Char(' ') => Some(Action::NextPage),
            KeyCode::Char('k') => Some(Action::PrevPage),
            KeyCode::Char('h') => Some(Action::FirstPage),
            KeyCode::Char('l') => Some(Action::LastPage),
            KeyCode::Char('y') => Some(Action::EnterCopyMode),
            KeyCode::Char('e') => Some(Action::ExportPdf),
            KeyCode::Char('?') => Some(Action::ToggleHelp),
            KeyCode::Char('q') => Some(Action::Quit),
            _ => None,
        }
    }
}

proof fn lemma_written_char(s: Seq<char>, c: char)
    requires
        s == seq![c],
        !text::is_space(c),
    ensures
        written_key(s) == Some(Key { code: KeyCode::Char(c), ctrl: false }),
{
    reveal_strlit("ctrl+");
    reveal_strlit("Ctrl+");
    text::law_nothing_to_trim(s);
    lemma_names();
    assert(text::lowered(s).len() == 1);
}

proof fn lemma_written_name(s: Seq<char>)
    requires
        1 < s.len(),
        forall|i: int| 0 <= i < s.len() ==> 'a' <= #[trigger] s[i] <= 'z',
    ensures
        written_key(s) == with_ctrl(named_key(s), false),
{
    reveal_strlit("ctrl+");
    reveal_strlit("Ctrl+");
    assert('a' <= s[0] <= 'z');
    assert('a' <= s[s.len() - 1] <= 'z');
    text::law_nothing_to_trim(s);
    assert(text::lowered(s) =~= s);
    if s.len() >= 5 {
        assert(s.subrange(0, 5)[4] == s[4]);
    }
}

proof fn lemma_usual_keys()
    ensures
        written_key("+"@) == Some(Key { code: KeyCode::Char('+'), ctrl: false }),
        written_key("="@) == Some(Key { code: KeyCode::Char('='), ctrl: false }),
        written_key("-"@) == Some(Key { code: KeyCode::Char('-'), ctrl: false }),
        written_key("_"@) == Some(Key { code: KeyCode::Char('_'), ctrl: false }),
        written_key("0"@) == Some(Key { code: KeyCode::Char('0'), ctrl: false }),
        written_key("w"@) == Some(Key { code: KeyCode::Char('w'), ctrl: false }),
        written_key("v"@) == Some(Key { code: KeyCode::Char('v'), ctrl: false }),
        written_key("j"@) == Some(Key { code: KeyCode::Char('j'), ctrl: false }),
        written_key("k"@) == Some(Key { code: KeyCode::Char('k'), ctrl: false }),
        written_key("h"@) == Some(Key { code: KeyCode::Char('h'), ctrl: false }),
        written_key("l"@) == Some(Key { code: KeyCode::Char('l'), ctrl: false }),
        written_key("y"@) == Some(Key { code: KeyCode::Char('y'), ctrl: false }),
        written_key("e"@) == Some(Key { code: KeyCode::Char('e'), ctrl: false }),
        written_key("?"@) == Some(Key { code: KeyCode::Char('?'), ctrl: false }),
        written_key("q"@) == Some(Key { code: KeyCode::Char('q'), ctrl: false }),
{
    reveal_strlit("+");
    reveal_strlit("=");
    reveal_strlit("-");
    reveal_strlit("_");
    reveal_strlit("0");
    reveal_strlit("w");
    reveal_strlit("v");
    reveal_strlit("j");
    reveal_strlit("k");
    reveal_strlit("h");
    reveal_strlit("l");
    reveal_strlit("y");
    reveal_strlit("e");
    reveal_strlit("?");
    reveal_strlit("q");
    assert("+"@ =~= seq!['+']);
    assert("="@ =~= seq!['=']);
    assert("-"@ =~= seq!['-']);
    assert("_"@ =~= seq!['_']);
    assert("0"@ =~= seq!['0']);
    assert("w"@ =~= seq!['w']);
    assert("v"@ =~= seq!['v']);
    assert("j"@ =~= seq!['j']);
    assert("k"@ =~= seq!['k']);
    assert("h"@ =~= seq!['h']);
    assert("l"@ =~= seq!['l']);
    assert("y"@ =~= seq!['y']);
    assert("e"@ =~= seq!['e']);
    assert("?"@ =~= seq!['?']);
    assert("q"@ =~= seq!['q']);
    lemma_written_char("+"@, '+');
    lemma_written_char("="@, '=');
    lemma_written_char("-"@, '-');
    lemma_written_char("_"@, '_');
    lemma_written_char("0"@, '0');
    lemma_written_char("w"@, 'w');
    lemma_written_char("v"@, 'v');
    lemma_written_char("j"@, 'j');
    lemma_written_char("k"@, 'k');
    lemma_written_char("h"@, 'h');
    lemma_written_char("l"@, 'l');
    lemma_written_char("y"@, 'y');
    lemma_written_char("e"@, 'e');
    lemma_written_char("?"@, '?');
    lemma_written_char("q"@, 'q');
}

proof fn lemma_usual_names()
    ensures
        written_key("left"@) == Some(Key { code: KeyCode::Left, ctrl: false }),
        written_key("right"@) == Some(Key { code: KeyCode::Right, ctrl: false }),
        written_key("up"@) == Some(Key { code: KeyCode::Up, ctrl: false }),
        written_key("down"@) == Some(Key { code: KeyCode::Down, ctrl: false }),
        written_key("space"@) == Some(Key { code: KeyCode::Char(' '), ctrl: false }),
        written_key("pagedown"@) == Some(Key { code: KeyCode::PageDown, ctrl: false }),
        written_key("pageup"@) == Some(Key { code: KeyCode::PageUp, ctrl: false }),
        written_key("backspace"@) == Some(Key { code: KeyCode::Backspace, ctrl: false }),
        written_key("esc"@) == Some(Key { code: KeyCode::Esc, ctrl: false }),
{
    lemma_names();
    assert(written_key("left"@) == Some(Key { code: KeyCode::Left, ctrl: false })) by {
        reveal_strlit("left");
        lemma_written_name("left"@);
    }
    assert(written_key("right"@) == Some(Key { code: KeyCode::Right, ctrl: false })) by {
        reveal_strlit("right");
        lemma_written_name("right"@);
    }
    assert(written_key("up"@) == Some(Key { code: KeyCode::Up, ctrl: false })) by {
        reveal_strlit("up");
        lemma_written_name("up"@);
    }
    assert(written_key("down"@) == Some(Key { code: KeyCode::Down, ctrl: false })) by {
        reveal_strlit("down");
        lemma_written_name("down"@);
    }
    assert(written_key("space"@) == Some(Key { code: KeyCode::Char(' '), ctrl: false })) by {
        reveal_strlit("space");
        lemma_written_name("space"@);
    }
    assert(written_key("pagedown"@) == Some(Key { code: KeyCode::PageDown, ctrl: false })) by {
        reveal_strlit("pagedown");
        lemma_written_name("pagedown"@);
    }
    assert(written_key("pageup"@) == Some(Key { code: KeyCode::PageUp, ctrl: false })) by {
        reveal_strlit("pageup");
        lemma_written_name("pageup"@);
    }
    assert(written_key("backspace"@) == Some(Key { code: KeyCode::Backspace, ctrl: false })) by {
        reveal_strlit("backspace");
        lemma_written_name("backspace"@);
    }
    assert(written_key("esc"@) == Some(Key { code: KeyCode::Esc, ctrl: false })) by {
        reveal_strlit("esc");
        lemma_written_name("esc"@);
    }
}

proof fn lemma_ctrl_c()
    ensures
        written_key("ctrl+c"@) == Some(Key { code: KeyCode::Char('c'), ctrl: true }),
{
    reveal_strlit("ctrl+");
    reveal_strlit("ctrl+c");
    assert("ctrl+c"@ =~= "ctrl+"@ + seq!['c']);
    law_ctrl_is_written_before_the_key(seq!['c']);
    law_names_of_keys(seq!['c']);
}

proof fn lemma_lists(a: ActionSpec, key: Key)
    ensures
        a.keys.len() == 1 ==> (lists(a, key) <==> written_key(a.keys[0]) == Some(key)),
        a.keys.len() == 2 ==> (lists(a, key) <==> written_key(a.keys[0]) == Some(key) || written_key(
            a.keys[1],
        ) == Some(key)),
        a.keys.len() == 3 ==> (lists(a, key) <==> written_key(a.keys[0]) == Some(key) || written_key(
            a.keys[1],
        ) == Some(key) || written_key(a.keys[2]) == Some(key)),
{
}

proof fn lemma_usual_lists(i: int, key: Key)
    requires
        0 <= i < actions().len(),
    ensures
        lists(actions()[i], key) <==> usual_action(key) == Some(actions()[i].action),
{
    lemma_usual_keys();
    lemma_usual_names();
    lemma_ctrl_c();
    lemma_lists(actions()[i], key);
}

/// Which key does what where nothing is configured: exactly the keys of the list do something, and
/// each does what the list says.
pub proof fn law_usual_keys(key: Key)
    ensures
        ({
            let bound = bind_actions(effective_actions(seq![]));
            &&& bound.dom().contains(key) <==> usual_action(key) is Some
            &&& usual_action(key) matches Some(a) ==> bound[key] == a
        }),
{
    law_actions_have_their_own_keys();
    let specs = actions();
    law_bound_keys_are_listed(specs, key);
    let bound = bind_actions(specs);
    if bound.dom().contains(key) {
        let i = choose|i: int|
            0 <= i < specs.len() && lists(#[trigger] specs[i], key) && bound[key]
                == specs[i].action;
        lemma_usual_lists(i, key);
    }
    if let Some(a) = usual_action(key) {
        let i = index_of_action(a);
        assert(0 <= i < specs.len() && specs[i].action == a);
        lemma_usual_lists(i, key);
        assert(lists(specs[i], key));
    }
}

spec fn index_of_action(a: Action) -> int {
    match a {
        Action::ZoomIn => 0,
        Action::ZoomOut => 1,
        Action::ZoomReset => 2,
        Action::FitContent(Fit::Width) => 3,
        Action::FitContent(Fit::Height) => 4,
        Action::Pan(x, y) => if x < 0 {
            5
        } else if x > 0 {
            6
        } else if y < 0 {
            7
        } else {
            8
        },
        Action::NextPage => 9,
        Action::PrevPage => 10,
        Action::FirstPage => 11,
        Action::LastPage => 12,
        Action::EnterCopyMode => 13,
        Action::ExportPdf => 14,
        Action::ToggleHelp => 15,
        Action::Quit => 16,
    }
}

/// Of two actions that list a key, the later has it; and an action takes no key that it does not
/// list.
pub proof fn law_later_action_has_the_key(specs: Seq<ActionSpec>, a: ActionSpec, key: Key)
    ensures
        ({
            let (before, after) = (bind_actions(specs), bind_actions(specs.push(a)));
            &&& lists(a, key) ==> after.dom().contains(key) && after[key] == a.action
            &&& !lists(a, key) ==> after.dom().contains(key) == before.dom().contains(key)
            &&& !lists(a, key) && before.dom().contains(key) ==> after[key] == before[key]
        }),
{
    assert(specs.push(a).drop_last() =~= specs);
    lemma_bind_keys(bind_actions(specs), a.keys, a.action, key);
}

/// What is told of as no key is written among the keys, and is none; and every such text is told of.
pub proof fn law_all_unknown_keys_are_told(keys: Seq<Seq<char>>, s: Seq<char>)
    ensures
        not_keys(keys).contains(s) <==> keys.contains(s) && written_key(s) is None,
    decreases keys.len(),
{
    if keys.len() > 0 {
        let rest = keys.drop_last();
        law_all_unknown_keys_are_told(rest, s);
        let told = not_keys(keys);
        let n = keys.len() - 1;
        if keys.contains(s) {
            let i = choose|i: int| 0 <= i < keys.len() && keys[i] == s;
            if i < n {
                assert(rest[i] == s);
            }
        }
        if rest.contains(s) {
            let i = choose|i: int| 0 <= i < rest.len() && rest[i] == s;
            assert(keys[i] == s);
        }
        if written_key(keys.last()) is None {
            assert(told.last() == keys.last());
            if not_keys(rest).contains(s) {
                let i = choose|i: int| 0 <= i < not_keys(rest).len() && not_keys(rest)[i] == s;
                assert(told[i] == s);
            }
            if told.contains(s) {
                let i = choose|i: int| 0 <= i < told.len() && told[i] == s;
                if i < told.len() - 1 {
                    assert(not_keys(rest)[i] == s);
                } else {
                    assert(keys[n] == s);
                }
            }
            if s == keys.last() {
                assert(told[told.len() - 1] == s);
            }
        }
    }
}

} // verus!

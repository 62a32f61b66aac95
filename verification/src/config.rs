//! Settings: from the command line, the environment and the configuration file.
use crate::keys::KeyOverride;
use crate::text;
use crate::text::{chars_of, parse_number, trim};
use toml::Value::{Array, Boolean, Datetime, Float, Integer};
use toml::{Table, Value};
use vstd::prelude::*;

verus! {

/// The number at most `max` that a setting is, if it is set to one.
pub open spec fn number_set(set: Option<&str>, max: nat) -> Option<nat> {
    match set {
        Some(s) => text::number(s@, max),
        None => None,
    }
}

/// The number at most `max` that a setting is, if it is set to one. White space around it is
/// ignored.
pub open spec fn trimmed_number_set(set: Option<&str>, max: nat) -> Option<nat> {
    match set {
        Some(s) => text::number(text::trimmed(s@), max),
        None => None,
    }
}

/// `v`, brought into the range from `low` to `high`.
pub open spec fn within(v: nat, low: nat, high: nat) -> nat {
    if v < low {
        low
    } else if v > high {
        high
    } else {
        v
    }
}

/// `v`, but at least `low`.
pub open spec fn at_least(v: nat, low: nat) -> nat {
    if v < low {
        low
    } else {
        v
    }
}

fn read_number(set: Option<&str>, max: u64) -> (r: Option<u64>)
    ensures
        r is Some == number_set(set, max as nat) is Some,
        r matches Some(v) ==> number_set(set, max as nat) == Some(v as nat),
{
    match set {
        Some(s) => {
            let cs = chars_of(s);
            parse_number(cs.as_slice(), max)
        },
        None => None,
    }
}

fn read_trimmed_number(set: Option<&str>, max: u64) -> (r: Option<u64>)
    ensures
        r is Some == trimmed_number_set(set, max as nat) is Some,
        r matches Some(v) ==> trimmed_number_set(set, max as nat) == Some(v as nat),
{
    match set {
        Some(s) => {
            let cs = chars_of(s);
            parse_number(trim(cs.as_slice()), max)
        },
        None => None,
    }
}

/// By how much an image is drawn larger than it is shown: the argument, or else the setting, or else
/// one; from 1 to 4.
pub fn resolve_scale(arg: Option<u32>, set: Option<&str>) -> (r: u32)
    ensures
        r == within(
            match arg {
                Some(v) => v as nat,
                None => match number_set(set, u32::MAX as nat) {
                    Some(v) => v,
                    None => 1,
                },
            },
            1,
            4,
        ),
        1 <= r <= 4,
        arg matches Some(v) && 1 <= v <= 4 ==> Some(r) == arg,
        arg is None && number_set(set, u32::MAX as nat) is None ==> r == 1,
{
    let v: u64 = match arg {
        Some(v) => v as u64,
        None => match read_number(set, u32::MAX as u64) {
            Some(v) => v,
            None => 1,
        },
    };
    if v < 1 {
        1
    } else if v > 4 {
        4
    } else {
        v as u32
    }
}

/// By how much a page is drawn larger inside the renderer, so that its edges are smooth: from 1 to
/// 4, and 2 unless it is set.
pub fn aa_supersample(set: Option<&str>) -> (r: u32)
    ensures
        r == (match trimmed_number_set(set, u32::MAX as nat) {
            Some(v) => within(v, 1, 4),
            None => 2,
        }),
        1 <= r <= 4,
        trimmed_number_set(set, u32::MAX as nat) matches Some(v) && 1 <= v <= 4 ==> Some(r as nat)
            == trimmed_number_set(set, u32::MAX as nat),
{
    match read_trimmed_number(set, u32::MAX as u64) {
        Some(v) => if v < 1 {
            1
        } else if v > 4 {
            4
        } else {
            v as u32
        },
        None => 2,
    }
}

/// The least time between two images, in milliseconds: at least 16 where it is set, and `default`
/// where it is not.
pub fn min_frame_ms(set: Option<&str>, default: u64) -> (r: u64)
    ensures
        r == (match number_set(set, u64::MAX as nat) {
            Some(v) => at_least(v, 16),
            None => default as nat,
        }),
{
    match read_number(set, u64::MAX) {
        Some(v) => if v < 16 {
            16
        } else {
            v
        },
        None => default,
    }
}

/// The least time between two images of a backend, in milliseconds, where it is not set: more where
/// images have to pass through tmux or are scaled into placeholder cells.
pub fn default_min_frame_ms(backend_name: &str) -> (r: u64)
    ensures
        r == (if text::occurs(backend_name@, "placeholder"@) || text::occurs(
            backend_name@,
            "tmux"@,
        ) {
            200
        } else {
            80u64
        }),
{
    if crate::cells::names(backend_name, "placeholder") || crate::cells::names(
        backend_name,
        "tmux",
    ) {
        200
    } else {
        80
    }
}

/// How often the image is shown again, in milliseconds: at least 100 where it is set, and 1000 where
/// it is not.
pub fn redraw_interval_ms(set: Option<&str>) -> (r: u64)
    ensures
        r == (match number_set(set, u64::MAX as nat) {
            Some(v) => at_least(v, 100),
            None => 1000,
        }),
{
    match read_number(set, u64::MAX) {
        Some(v) => if v < 100 {
            100
        } else {
            v
        },
        None => 1000,
    }
}

/// How often the window is looked at, in milliseconds: at least 100 where it is set, and never where
/// it is not set, or set to zero.
pub fn vis_poll_ms(set: Option<&str>) -> (r: Option<u64>)
    ensures
        (match r {
            Some(v) => Some(v as nat),
            None => None,
        }) == (match trimmed_number_set(set, u64::MAX as nat) {
            Some(v) => if v == 0 {
                None
            } else {
                Some(at_least(v, 100))
            },
            None => None,
        }),
{
    match read_trimmed_number(set, u64::MAX) {
        Some(v) => if v == 0 {
            None
        } else if v < 100 {
            Some(100)
        } else {
            Some(v)
        },
        None => None,
    }
}

/// Where the configuration file is.
#[derive(Clone, Copy, Debug, PartialEq, Eq, Structural)]
pub enum ConfigPlace {
    /// At the path that is set.
    Given,
    /// In the directory for configuration files that is set.
    ConfigHome,
    /// In `.config` in the home directory.
    Home,
}

/// Where the configuration file is, by what is set: its path, the directory for configuration files,
/// and the home directory.
pub fn config_place(path_set: bool, config_home_set: bool, home_set: bool) -> (r: Option<
    ConfigPlace,
>)
    ensures
        r == (if path_set {
            Some(ConfigPlace::Given)
        } else if config_home_set {
            Some(ConfigPlace::ConfigHome)
        } else if home_set {
            Some(ConfigPlace::Home)
        } else {
            None
        }),
{
    if path_set {
        Some(ConfigPlace::Given)
    } else if config_home_set {
        Some(ConfigPlace::ConfigHome)
    } else if home_set {
        Some(ConfigPlace::Home)
    } else {
        None
    }
}

// ---------------------------------------------------------------------------
// Keys in the configuration file.

/// The value of an entry of the configuration file: a text, a list, of which only the texts are
/// held, or something that is of no use here.
pub enum Setting {
    Text(String),
    List(Vec<Option<String>>),
    Integer,
    Float,
    Boolean,
    Datetime,
    Section,
}

/// What a value says.
pub enum SettingSpec {
    Text(Seq<char>),
    List(Seq<Option<Seq<char>>>),
    Integer,
    Float,
    Boolean,
    Datetime,
    Section,
}

/// The characters of a text, if there is one.
pub open spec fn text_opt(s: Option<String>) -> Option<Seq<char>> {
    match s {
        Some(t) => Some(t@),
        None => None,
    }
}

/// What a value says.
pub open spec fn setting_spec(s: Setting) -> SettingSpec {
    match s {
        Setting::Text(t) => SettingSpec::Text(t@),
        Setting::List(l) => SettingSpec::List(Seq::new(l@.len(), |i: int| text_opt(l@[i]))),
        Setting::Integer => SettingSpec::Integer,
        Setting::Float => SettingSpec::Float,
        Setting::Boolean => SettingSpec::Boolean,
        Setting::Datetime => SettingSpec::Datetime,
        Setting::Section => SettingSpec::Section,
    }
}

/// What entries say: each a name and a value.
pub open spec fn entry_specs(entries: Seq<(String, Setting)>) -> Seq<(Seq<char>, SettingSpec)> {
    Seq::new(entries.len(), |i: int| (entries[i].0@, setting_spec(entries[i].1)))
}

/// The entries of a section of a configuration file. `Ok(None)` where there is no such section;
/// where the text is no configuration file, the error says why.
pub uninterp spec fn section_entries(file: Seq<char>, section: Seq<char>) -> Result<
    Option<Seq<(Seq<char>, SettingSpec)>>,
    Seq<char>,
>;

/// `toml::Table` of the `toml` crate, read from a text, holds the entries of each of its sections by
/// name. `Ok(None)` where it has no section of that name; where the text is no TOML, the error says
/// why.
#[verifier::external_body]
fn read_section(file: &str, section: &str) -> (r: Result<Option<Vec<(String, Setting)>>, String>)
    ensures
        (match r {
            Ok(found) => Ok(section_spec(found)),
            Err(e) => Err(e@),
        }) == section_entries(file@, section@),
{
    let value = |v: &Value| match v {
        Value::String(s) => Setting::Text(s.clone()),
        Array(a) => Setting::List(a.iter().map(|x| x.as_str().map(String::from)).collect()),
        Integer(_) => Setting::Integer,
        Float(_) => Setting::Float,
        Boolean(_) => Setting::Boolean,
        Datetime(_) => Setting::Datetime,
        Value::Table(_) => Setting::Section,
    };
    let table = file.parse::<Table>().map_err(|e| e.to_string())?;
    Ok(table.get(section).and_then(Value::as_table).map(
        |t| t.iter().map(|(k, v)| (k.clone(), value(v))).collect(),
    ))
}

/// The texts of a list, in order.
pub open spec fn texts_in(list: Seq<Option<Seq<char>>>) -> Seq<Seq<char>>
    decreases list.len(),
{
    if list.len() == 0 {
        seq![]
    } else {
        match list.last() {
            Some(t) => texts_in(list.drop_last()).push(t),
            None => texts_in(list.drop_last()),
        }
    }
}

/// The keys that a value gives to an action: one, or a list of them.
pub open spec fn keys_in(s: SettingSpec) -> Option<Seq<Seq<char>>> {
    match s {
        SettingSpec::Text(t) => Some(seq![t]),
        SettingSpec::List(l) => Some(texts_in(l)),
        _ => None,
    }
}

/// What entries configure: the names whose value gives keys, and the keys.
pub open spec fn overrides_in(entries: Seq<(Seq<char>, SettingSpec)>) -> Seq<
    (Seq<char>, Seq<Seq<char>>),
>
    decreases entries.len(),
{
    if entries.len() == 0 {
        seq![]
    } else {
        let before = overrides_in(entries.drop_last());
        match keys_in(entries.last().1) {
            Some(keys) => before.push((entries.last().0, keys)),
            None => before,
        }
    }
}

/// What configured keys say.
pub open spec fn override_specs(overrides: Seq<KeyOverride>) -> Seq<(Seq<char>, Seq<Seq<char>>)> {
    Seq::new(overrides.len(), |i: int| (overrides[i].name@, text::texts(overrides[i].keys@)))
}

fn collect_texts(list: &Vec<Option<String>>) -> (r: Vec<String>)
    ensures
        text::texts(r@) == texts_in(Seq::new(list@.len(), |i: int| text_opt(list@[i]))),
{
    let ghost all = Seq::new(list@.len(), |i: int| text_opt(list@[i]));
    let mut out: Vec<String> = Vec::new();
    assert(text::texts(out@) =~= texts_in(all.take(0)));
    for i in 0..list.len()
        invariant
            all == Seq::new(list@.len(), |i: int| text_opt(list@[i])),
            text::texts(out@) == texts_in(all.take(i as int)),
    {
        assert(all.take(i + 1).drop_last() =~= all.take(i as int));
        if let Some(t) = &list[i] {
            let ghost before = text::texts(out@);
            out.push(t.as_str().to_owned());
            assert(text::texts(out@) =~= before.push(t@));
        }
    }
    assert(all.take(all.len() as int) =~= all);
    out
}

/// The keys that entries configure.
pub fn key_overrides(entries: &Vec<(String, Setting)>) -> (r: Vec<KeyOverride>)
    ensures
        override_specs(r@) == overrides_in(entry_specs(entries@)),
{
    let ghost all = entry_specs(entries@);
    let mut out: Vec<KeyOverride> = Vec::new();
    assert(override_specs(out@) =~= overrides_in(all.take(0)));
    for i in 0..entries.len()
        invariant
            all == entry_specs(entries@),
            override_specs(out@) == overrides_in(all.take(i as int)),
    {
        assert(all.take(i + 1).drop_last() =~= all.take(i as int));
        let ghost before = override_specs(out@);
        let e = &entries[i];
        match &e.1 {
            Setting::Text(t) => {
                let mut keys: Vec<String> = Vec::new();
                keys.push(t.as_str().to_owned());
                assert(text::texts(keys@) =~= seq![t@]);
                out.push(KeyOverride { name: e.0.as_str().to_owned(), keys });
                assert(override_specs(out@) =~= before.push((e.0@, seq![t@])));
            },
            Setting::List(l) => {
                let keys = collect_texts(l);
                let ghost found = text::texts(keys@);
                out.push(KeyOverride { name: e.0.as_str().to_owned(), keys });
                assert(override_specs(out@) =~= before.push((e.0@, found)));
            },
            _ => {},
        }
    }
    assert(all.take(all.len() as int) =~= all);
    out
}

/// What a section configures, if there is one.
pub open spec fn configured_in(section: Option<Seq<(Seq<char>, SettingSpec)>>) -> Seq<
    (Seq<char>, Seq<Seq<char>>),
> {
    match section {
        Some(entries) => overrides_in(entries),
        None => seq![],
    }
}

/// What a section says, if there is one.
pub open spec fn section_spec(section: Option<Vec<(String, Setting)>>) -> Option<
    Seq<(Seq<char>, SettingSpec)>,
> {
    match section {
        Some(entries) => Some(entry_specs(entries@)),
        None => None,
    }
}

/// The keys that a section configures: none where there is no section.
pub fn section_overrides(section: &Option<Vec<(String, Setting)>>) -> (r: Vec<KeyOverride>)
    ensures
        override_specs(r@) == configured_in(section_spec(*section)),
{
    match section {
        Some(entries) => key_overrides(entries),
        None => {
            let none: Vec<KeyOverride> = Vec::new();
            assert(override_specs(none@) =~= seq![]);
            none
        },
    }
}

/// The keys that a configuration file gives to actions, in its section `keys`: none where it has no
/// such section. Where the text is no configuration file, the error says why.
pub fn read_key_overrides(file: &str) -> (r: Result<Vec<KeyOverride>, String>)
    ensures
        (match r {
            Ok(overrides) => Ok(override_specs(overrides@)),
            Err(e) => Err(e@),
        }) == (match section_entries(file@, "keys"@) {
            Ok(section) => Ok(configured_in(section)),
            Err(e) => Err(e),
        }),
{
    match read_section(file, "keys") {
        Ok(section) => Ok(section_overrides(&section)),
        Err(e) => Err(e),
    }
}

/// A number that is brought into a range lies in it, is kept if it did before, and otherwise is the
/// end of the range on its side.
pub proof fn law_brought_into_range(v: nat, low: nat, high: nat)
    requires
        low <= high,
    ensures
        low <= within(v, low, high) <= high,
        low <= v <= high ==> within(v, low, high) == v,
        v < low ==> within(v, low, high) == low,
        v > high ==> within(v, low, high) == high,
        at_least(v, low) >= low,
        v >= low ==> at_least(v, low) == v,
        v < low ==> at_least(v, low) == low,
{
}

/// A setting that is a number in decimal is that number, and white space around it is ignored where
/// it may be.
pub proof fn law_setting_reads_back(s: &str, n: nat, max: nat)
    requires
        n <= max,
    ensures
        s@ == text::decimal(n) ==> number_set(Some(s), max) == Some(n),
        text::trimmed(s@) == text::decimal(n) ==> trimmed_number_set(Some(s), max) == Some(n),
        number_set(None, max) is None,
        trimmed_number_set(None, max) is None,
{
    text::law_number_reads_back(n, max);
}

/// The texts of a list are all of its texts, in order, and nothing else.
pub proof fn law_texts_of_a_list(list: Seq<Option<Seq<char>>>, t: Seq<char>)
    ensures
        texts_in(list.push(Some(t))) == texts_in(list).push(t),
        texts_in(list.push(None)) == texts_in(list),
        texts_in(Seq::<Option<Seq<char>>>::empty()).len() == 0,
{
    assert(list.push(Some(t)).drop_last() =~= list);
    assert(list.push(None).drop_last() =~= list);
}

/// Each entry whose value is a text or a list of texts configures the keys of its own name, behind
/// those before it. Any other entry configures nothing.
pub proof fn law_entries_configure_their_own_name(
    entries: Seq<(Seq<char>, SettingSpec)>,
    name: Seq<char>,
    key: Seq<char>,
    list: Seq<Option<Seq<char>>>,
    value: SettingSpec,
)
    ensures
        overrides_in(entries.push((name, SettingSpec::Text(key)))) == overrides_in(entries).push(
            (name, seq![key]),
        ),
        overrides_in(entries.push((name, SettingSpec::List(list)))) == overrides_in(entries).push(
            (name, texts_in(list)),
        ),
        !(value is Text || value is List) ==> overrides_in(entries.push((name, value)))
            == overrides_in(entries),
        configured_in(None).len() == 0,
        configured_in(Some(entries)) == overrides_in(entries),
        overrides_in(Seq::<(Seq<char>, SettingSpec)>::empty()).len() == 0,
{
    assert(entries.push((name, SettingSpec::Text(key))).drop_last() =~= entries);
    assert(entries.push((name, SettingSpec::List(list))).drop_last() =~= entries);
    assert(entries.push((name, value)).drop_last() =~= entries);
}

} // verus!

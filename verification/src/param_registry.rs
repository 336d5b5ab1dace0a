//! Curated registry of `llama-server` flags surfaced by the Param Builder.
//!
//! Every entry declares its command-line flag, aliases, category, control kind and a
//! human description. Anything that the registry does not model flows through the
//! free-form custom flags of the builder, so that reading and saving never silently
//! drops text.

use crate::number;
use crate::registry_table;
use crate::text;
use vstd::prelude::*;

verus! {

/// The number of flags in the registry.
pub const REGISTRY_LEN: usize = 48;

/// The number of built-in presets.
pub const PRESET_COUNT: usize = 4;

/// Category header shown in the Param Builder list and used to group flags.
#[derive(Debug, Clone, Copy, PartialEq, Eq, Structural)]
pub enum ParamCategory {
    Context,
    Gpu,
    Cache,
    Cpu,
    Load,
    Sampling,
    Server,
}

impl ParamCategory {
    /// The header text of a category.
    pub open spec fn title_text(self) -> Seq<char> {
        match self {
            ParamCategory::Context => "Context & batching"@,
            ParamCategory::Gpu => "GPU & offload"@,
            ParamCategory::Cache => "KV cache"@,
            ParamCategory::Cpu => "CPU & threads"@,
            ParamCategory::Load => "Load & memory"@,
            ParamCategory::Sampling => "Sampling"@,
            ParamCategory::Server => "Server"@,
        }
    }

    /// All categories, in display order.
    pub fn all() -> (categories: Vec<ParamCategory>)
        ensures
            categories@ == seq![
                ParamCategory::Context,
                ParamCategory::Gpu,
                ParamCategory::Cache,
                ParamCategory::Cpu,
                ParamCategory::Load,
                ParamCategory::Sampling,
                ParamCategory::Server,
            ],
    {
        vec![
            ParamCategory::Context,
            ParamCategory::Gpu,
            ParamCategory::Cache,
            ParamCategory::Cpu,
            ParamCategory::Load,
            ParamCategory::Sampling,
            ParamCategory::Server,
        ]
    }

    pub fn title(self) -> (title: &'static str)
        ensures
            title@ == self.title_text(),
    {
        match self {
            ParamCategory::Context => "Context & batching",
            ParamCategory::Gpu => "GPU & offload",
            ParamCategory::Cache => "KV cache",
            ParamCategory::Cpu => "CPU & threads",
            ParamCategory::Load => "Load & memory",
            ParamCategory::Sampling => "Sampling",
            ParamCategory::Server => "Server",
        }
    }
}

/// Control kind for one flag: drives the editor and flag emission.
#[derive(Debug, Clone, Copy, PartialEq, Eq)]
pub enum ParamKind {
    /// Integer spinner with inclusive bounds and a +/- step.
    Integer { min: i64, max: i64, step: i64 },
    /// Boolean flag: emitted only when switched on.
    Toggle,
    /// on/off/auto: emitted as `--flag on` / `--flag off`, unset = auto.
    TriState,
    /// Pick one of the listed literals, or leave unset.
    Choice(&'static [&'static str]),
    /// Free-form single-line text (paths, tensor overrides, decimal fractions).
    Text,
}

/// What a `ParamKind` says, with texts as character sequences.
pub enum KindSpec {
    Integer { min: int, max: int, step: int },
    Toggle,
    TriState,
    Choice(Seq<Seq<char>>),
    Text,
}

impl View for ParamKind {
    type V = KindSpec;

    open spec fn view(&self) -> KindSpec {
        match *self {
            ParamKind::Integer { min, max, step } => KindSpec::Integer {
                min: min as int,
                max: max as int,
                step: step as int,
            },
            ParamKind::Toggle => KindSpec::Toggle,
            ParamKind::TriState => KindSpec::TriState,
            ParamKind::Choice(options) => KindSpec::Choice(text::views(options@)),
            ParamKind::Text => KindSpec::Text,
        }
    }
}

/// One curated `llama-server` flag.
#[derive(Debug, Clone, Copy)]
pub struct ParamDef {
    /// Long flag text exactly as emitted (starts with `--`).
    pub flag: &'static str,
    /// Alternative spellings accepted when reading (start with `-`).
    pub aliases: &'static [&'static str],
    pub label: &'static str,
    pub category: ParamCategory,
    pub kind: ParamKind,
    pub description: &'static str,
}

/// What a `ParamDef` says, with texts as character sequences.
pub struct DefSpec {
    pub flag: Seq<char>,
    pub aliases: Seq<Seq<char>>,
    pub label: Seq<char>,
    pub category: ParamCategory,
    pub kind: KindSpec,
    pub description: Seq<char>,
}

impl View for ParamDef {
    type V = DefSpec;

    open spec fn view(&self) -> DefSpec {
        DefSpec {
            flag: self.flag@,
            aliases: text::views(self.aliases@),
            label: self.label@,
            category: self.category,
            kind: self.kind@,
            description: self.description@,
        }
    }
}

impl DefSpec {
    /// Whether `token` is the flag or one of its aliases.
    pub open spec fn is_called(self, token: Seq<char>) -> bool {
        self.flag == token || self.aliases.contains(token)
    }
}

/// Stored value for one registry flag.
#[derive(Debug, Clone, PartialEq)]
pub enum ParamValue {
    /// Not set: the flag is not emitted and the binary default applies.
    Unset,
    Integer(i64),
    /// Toggle switched on.
    On,
    /// TriState explicit off (`--flag off`).
    Off,
    /// Index into the flag's `Choice` options.
    Choice(usize),
    Text(String),
}

/// What a `ParamValue` holds, with text as a character sequence.
pub enum ValueSpec {
    Unset,
    Integer(int),
    On,
    Off,
    Choice(int),
    Text(Seq<char>),
}

impl View for ParamValue {
    type V = ValueSpec;

    open spec fn view(&self) -> ValueSpec {
        match *self {
            ParamValue::Unset => ValueSpec::Unset,
            ParamValue::Integer(value) => ValueSpec::Integer(value as int),
            ParamValue::On => ValueSpec::On,
            ParamValue::Off => ValueSpec::Off,
            ParamValue::Choice(index) => ValueSpec::Choice(index as int),
            ParamValue::Text(text) => ValueSpec::Text(text@),
        }
    }
}

/// The first position of `token` among `options`.
pub open spec fn option_index(options: Seq<Seq<char>>, token: Seq<char>) -> Option<int>
    decreases options.len(),
{
    if options.len() == 0 {
        None
    } else if options[0] == token {
        Some(0)
    } else {
        match option_index(options.drop_first(), token) {
            Some(i) => Some(i + 1),
            None => None,
        }
    }
}

pub proof fn lemma_option_index(options: Seq<Seq<char>>, token: Seq<char>)
    ensures
        match option_index(options, token) {
            Some(i) => 0 <= i < options.len() && options[i] == token && forall|j: int|
                0 <= j < i ==> options[j] != token,
            None => !options.contains(token),
        },
    decreases options.len(),
{
    if options.len() > 0 && options[0] != token {
        let rest = options.drop_first();
        lemma_option_index(rest, token);
        match option_index(rest, token) {
            Some(i) => {
                assert forall|j: int| 0 <= j < i + 1 implies options[j] != token by {
                    if j > 0 {
                        assert(options[j] == rest[j - 1]);
                    }
                }
            },
            None => {
                assert forall|j: int| 0 <= j < options.len() implies options[j] != token by {
                    if j > 0 {
                        assert(options[j] == rest[j - 1]);
                    }
                }
            },
        }
    }
}

/// A position that holds `token` behind other options is what `option_index` gives.
pub proof fn lemma_option_index_is(options: Seq<Seq<char>>, token: Seq<char>, i: int)
    requires
        0 <= i < options.len(),
        options[i] == token,
        forall|j: int| 0 <= j < i ==> options[j] != token,
    ensures
        option_index(options, token) == Some(i),
{
    lemma_option_index(options, token);
    assert(options.contains(token));
}

/// The value that a command-line token stands for, if a flag of this kind has one.
pub open spec fn value_of_token(kind: KindSpec, token: Seq<char>) -> Option<ValueSpec> {
    match kind {
        KindSpec::Integer { min, max, .. } => match number::parse_signed(token) {
            Some(value) => if min <= value <= max {
                Some(ValueSpec::Integer(value))
            } else {
                None
            },
            None => None,
        },
        KindSpec::Toggle => None,
        KindSpec::TriState => if token == "on"@ {
            Some(ValueSpec::On)
        } else if token == "off"@ {
            Some(ValueSpec::Off)
        } else if token == "auto"@ {
            Some(ValueSpec::Unset)
        } else {
            None
        },
        KindSpec::Choice(options) => match option_index(options, token) {
            Some(i) => Some(ValueSpec::Choice(i)),
            None => None,
        },
        KindSpec::Text => Some(ValueSpec::Text(token)),
    }
}

/// The text of the value column for `value` on a flag of this kind.
pub open spec fn display_text(value: ValueSpec, kind: KindSpec) -> Seq<char> {
    match value {
        ValueSpec::Unset => match kind {
            KindSpec::Toggle => "off"@,
            KindSpec::TriState => "auto"@,
            _ => "·"@,
        },
        ValueSpec::Integer(v) => number::decimal_int(v),
        ValueSpec::On => "ON"@,
        ValueSpec::Off => "off"@,
        ValueSpec::Choice(i) => match kind {
            KindSpec::Choice(options) => if 0 <= i < options.len() {
                options[i]
            } else {
                "·"@
            },
            _ => "·"@,
        },
        ValueSpec::Text(text) => text,
    }
}

/// The position of `token` among `options`.
pub fn find_option(options: &[&'static str], token: &[char]) -> (found: Option<usize>)
    ensures
        match found {
            Some(i) => i < options@.len() && option_index(text::views(options@), token@) == Some(
                i as int,
            ),
            None => option_index(text::views(options@), token@) is None,
        },
{
    for i in 0..options.len()
        invariant
            forall|j: int| 0 <= j < i ==> options@[j]@ != token@,
    {
        if text::is_text(token, options[i]) {
            proof {
                lemma_option_index_is(text::views(options@), token@, i as int);
            }
            return Some(i);
        }
    }
    proof {
        lemma_option_index(text::views(options@), token@);
    }
    None
}

impl ParamDef {
    /// True when the flag consumes a following token as its value.
    pub fn takes_value(&self) -> (takes: bool)
        ensures
            takes == !(self@.kind is Toggle),
    {
        match self.kind {
            ParamKind::Toggle => false,
            _ => true,
        }
    }

    /// Choice literals for this flag, when its kind is `Choice`.
    pub fn kind_options(&self) -> (options: Option<&'static [&'static str]>)
        ensures
            match options {
                Some(literals) => self@.kind == KindSpec::Choice(text::views(literals@)),
                None => !(self@.kind is Choice),
            },
    {
        match self.kind {
            ParamKind::Choice(options) => Some(options),
            _ => None,
        }
    }

    /// Map a token onto a stored value for this flag's kind. Returns `None` when the
    /// token cannot be represented; the caller then keeps it as a custom flag line.
    pub fn parse_value(&self, token: &str) -> (value: Option<ParamValue>)
        ensures
            match value {
                Some(v) => value_of_token(self@.kind, token@) == Some(v@),
                None => value_of_token(self@.kind, token@) is None,
            },
    {
        let chars = text::chars_of(token);
        match self.kind {
            ParamKind::Integer { min, max, .. } => match number::read_signed(chars.as_slice()) {
                Some(value) => if value >= min && value <= max {
                    Some(ParamValue::Integer(value))
                } else {
                    None
                },
                None => None,
            },
            ParamKind::Toggle => None,
            ParamKind::TriState => if text::is_text(chars.as_slice(), "on") {
                Some(ParamValue::On)
            } else if text::is_text(chars.as_slice(), "off") {
                Some(ParamValue::Off)
            } else if text::is_text(chars.as_slice(), "auto") {
                Some(ParamValue::Unset)
            } else {
                None
            },
            ParamKind::Choice(options) => match find_option(options, chars.as_slice()) {
                Some(index) => Some(ParamValue::Choice(index)),
                None => None,
            },
            ParamKind::Text => Some(ParamValue::Text(token.to_owned())),
        }
    }
}

impl ParamValue {
    pub fn is_set(&self) -> (set: bool)
        ensures
            set == !(self@ is Unset),
    {
        match self {
            ParamValue::Unset => false,
            _ => true,
        }
    }

    /// Compact representation for the value column of the param list.
    pub fn display(&self, def: &ParamDef) -> (text: String)
        ensures
            text@ == display_text(self@, def@.kind),
    {
        match self {
            ParamValue::Unset => match def.kind {
                ParamKind::Toggle => "off".to_owned(),
                ParamKind::TriState => "auto".to_owned(),
                _ => "·".to_owned(),
            },
            ParamValue::Integer(value) => text::string_of(number::write_signed(*value).as_slice()),
            ParamValue::On => "ON".to_owned(),
            ParamValue::Off => "off".to_owned(),
            ParamValue::Choice(index) => match def.kind_options() {
                Some(options) => if *index < options.len() {
                    options[*index].to_owned()
                } else {
                    "·".to_owned()
                },
                None => "·".to_owned(),
            },
            ParamValue::Text(text) => text.clone(),
        }
    }
}

/// The first flag at or after position `from` that `token` calls.
pub open spec fn find_flag_from(token: Seq<char>, from: int) -> Option<int>
    decreases REGISTRY_LEN - from,
{
    if from < 0 || from >= REGISTRY_LEN {
        None
    } else if registry_table::flag_table()[from].is_called(token) {
        Some(from)
    } else {
        find_flag_from(token, from + 1)
    }
}

/// The position of the flag that `token` calls.
pub open spec fn find_flag(token: Seq<char>) -> Option<int> {
    find_flag_from(token, 0)
}

pub proof fn lemma_find_flag_from(token: Seq<char>, from: int)
    requires
        0 <= from <= REGISTRY_LEN,
    ensures
        match find_flag_from(token, from) {
            Some(i) => from <= i < REGISTRY_LEN && registry_table::flag_table()[i].is_called(token) && forall|j: int|
                from <= j < i ==> !(#[trigger] registry_table::flag_table()[j]).is_called(token),
            None => forall|j: int|
                from <= j < REGISTRY_LEN ==> !(#[trigger] registry_table::flag_table()[j]).is_called(token),
        },
    decreases REGISTRY_LEN - from,
{
    if from < REGISTRY_LEN && !registry_table::flag_table()[from].is_called(token) {
        lemma_find_flag_from(token, from + 1);
    }
}

/// Look up a registry flag by long flag or alias (exact match).
pub fn find_by_flag(token: &str) -> (found: Option<usize>)
    ensures
        match found {
            Some(i) => i < REGISTRY_LEN && find_flag(token@) == Some(i as int),
            None => find_flag(token@) is None,
        },
{
    let chars = text::chars_of(token);
    let mut i: usize = 0;
    while i < REGISTRY_LEN
        invariant
            i <= REGISTRY_LEN,
            chars@ == token@,
            find_flag(token@) == find_flag_from(token@, i as int),
        decreases REGISTRY_LEN - i,
    {
        let def = registry_table::registry_def(i);
        if text::is_text(chars.as_slice(), def.flag) {
            return Some(i);
        }
        let found = find_option(def.aliases, chars.as_slice());
        proof {
            lemma_option_index(text::views(def.aliases@), token@);
        }
        if found.is_some() {
            assert(text::views(def.aliases@).contains(token@));
            return Some(i);
        }
        i = i + 1;
    }
    None
}

/// The first flag at or after position `from` that belongs to `category`.
pub open spec fn category_start_from(category: ParamCategory, from: int) -> Option<int>
    decreases REGISTRY_LEN - from,
{
    if from < 0 || from >= REGISTRY_LEN {
        None
    } else if registry_table::flag_table()[from].category == category {
        Some(from)
    } else {
        category_start_from(category, from + 1)
    }
}

/// First registry index in each category, for header rendering.
pub fn category_start(category: ParamCategory) -> (found: Option<usize>)
    ensures
        match found {
            Some(i) => category_start_from(category, 0) == Some(i as int),
            None => category_start_from(category, 0) is None,
        },
{
    let mut i: usize = 0;
    while i < REGISTRY_LEN
        invariant
            i <= REGISTRY_LEN,
            category_start_from(category, 0) == category_start_from(category, i as int),
        decreases REGISTRY_LEN - i,
    {
        if registry_table::registry_def(i).category == category {
            return Some(i);
        }
        i = i + 1;
    }
    None
}

/// The curated flags, in display order (grouped by category).
pub fn registry() -> (defs: Vec<ParamDef>)
    ensures
        text::views(defs@) == registry_table::flag_table(),
{
    let mut defs: Vec<ParamDef> = Vec::new();
    let mut i: usize = 0;
    while i < REGISTRY_LEN
        invariant
            i <= REGISTRY_LEN,
            text::views(defs@) == registry_table::flag_table().take(i as int),
            registry_table::flag_table().len() == REGISTRY_LEN,
        decreases REGISTRY_LEN - i,
    {
        let ghost earlier = defs@;
        defs.push(registry_table::registry_def(i));
        proof {
            text::lemma_views_push(earlier, defs@.last());
        }
        assert(text::views(defs@) =~= registry_table::flag_table().take(i + 1));
        i = i + 1;
    }
    assert(registry_table::flag_table().take(i as int) =~= registry_table::flag_table());
    defs
}

/// A built-in parameter preset: a name plus a sparse list of values applied on top of
/// a cleared state.
#[derive(Debug, Clone)]
pub struct Preset {
    pub name: &'static str,
    pub description: &'static str,
    /// `(long flag, value)` pairs; every flag stands in the registry.
    pub values: &'static [(&'static str, PresetValue)],
}

/// One value inside a preset definition.
#[derive(Debug, Clone, Copy)]
pub enum PresetValue {
    Int(i64),
    On,
    Off,
    Opt(&'static str),
    Text(&'static str),
}

/// What a `PresetValue` says, with text as a character sequence.
pub enum PresetValueSpec {
    Int(int),
    On,
    Off,
    Opt(Seq<char>),
    Text(Seq<char>),
}

impl View for PresetValue {
    type V = PresetValueSpec;

    open spec fn view(&self) -> PresetValueSpec {
        match *self {
            PresetValue::Int(value) => PresetValueSpec::Int(value as int),
            PresetValue::On => PresetValueSpec::On,
            PresetValue::Off => PresetValueSpec::Off,
            PresetValue::Opt(option) => PresetValueSpec::Opt(option@),
            PresetValue::Text(text) => PresetValueSpec::Text(text@),
        }
    }
}

/// What a `Preset` says, with texts as character sequences.
pub struct PresetSpec {
    pub name: Seq<char>,
    pub description: Seq<char>,
    pub values: Seq<(Seq<char>, PresetValueSpec)>,
}

impl View for Preset {
    type V = PresetSpec;

    open spec fn view(&self) -> PresetSpec {
        PresetSpec {
            name: self.name@,
            description: self.description@,
            values: self.values@.map_values(|pair: (&'static str, PresetValue)| (pair.0@, pair.1@)),
        }
    }
}

/// The built-in presets, in display order.
pub fn presets() -> (list: Vec<Preset>)
    ensures
        text::views(list@) == registry_table::preset_table(),
{
    let mut list: Vec<Preset> = Vec::new();
    let mut i: usize = 0;
    while i < PRESET_COUNT
        invariant
            i <= PRESET_COUNT,
            text::views(list@) == registry_table::preset_table().take(i as int),
            registry_table::preset_table().len() == PRESET_COUNT,
        decreases PRESET_COUNT - i,
    {
        let ghost earlier = list@;
        list.push(registry_table::preset_entry(i));
        proof {
            text::lemma_views_push(earlier, list@.last());
        }
        assert(text::views(list@) =~= registry_table::preset_table().take(i + 1));
        i = i + 1;
    }
    assert(registry_table::preset_table().take(i as int) =~= registry_table::preset_table());
    list
}

} // verus!

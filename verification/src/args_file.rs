//! Settings as command-line arguments: how a configuration is written to an
//! argument file, and how one that was read is merged with the command line.
use vstd::prelude::*;
use vstd::string::*;

use crate::text;
use crate::text::{join, same_text, split_words};

verus! {

/// Which perceptual settings the command line gave.
#[derive(Clone, Copy, Debug, PartialEq, Eq, Structural)]
pub struct PerceptualArgOverrides {
    pub wd_r_gamma: bool,
    pub wd_r_warmup_iters: bool,
    pub lpips_loss_weight: bool,
}

impl Default for PerceptualArgOverrides {
    fn default() -> (r: PerceptualArgOverrides)
        ensures
            !r.wd_r_gamma && !r.wd_r_warmup_iters && !r.lpips_loss_weight,
    {
        PerceptualArgOverrides {
            wd_r_gamma: false,
            wd_r_warmup_iters: false,
            lpips_loss_weight: false,
        }
    }
}

/// Splits the text of an argument file.
pub fn split_args_str(content: &str) -> (args: Vec<String>)
    ensures
        text::texts(args@) == text::words(content@),
{
    split_words(content)
}

/// One element of a setting with several values.
pub enum ListItem {
    Text(String),
    /// A number, as written.
    Number(String),
    /// Anything else, as written.
    Other(String),
}

/// The value of a setting.
pub enum ConfigValue {
    Null,
    Bool(bool),
    /// A number, as written.
    Number(String),
    Text(String),
    List(Vec<ListItem>),
    /// Anything else, as written.
    Other(String),
}

/// A setting.
pub struct ConfigEntry {
    pub key: String,
    pub value: ConfigValue,
}

pub enum ItemView {
    Text(Seq<char>),
    Number(Seq<char>),
    Other(Seq<char>),
}

#[verifier::ext_equal]
pub enum ValueView {
    Null,
    Bool(bool),
    Number(Seq<char>),
    Text(Seq<char>),
    List(Seq<ItemView>),
    Other(Seq<char>),
}

#[verifier::ext_equal]
pub struct EntryView {
    pub key: Seq<char>,
    pub value: ValueView,
}

impl View for ListItem {
    type V = ItemView;

    open spec fn view(&self) -> ItemView {
        match *self {
            ListItem::Text(s) => ItemView::Text(s@),
            ListItem::Number(s) => ItemView::Number(s@),
            ListItem::Other(s) => ItemView::Other(s@),
        }
    }
}

impl View for ConfigValue {
    type V = ValueView;

    open spec fn view(&self) -> ValueView {
        match *self {
            ConfigValue::Null => ValueView::Null,
            ConfigValue::Bool(b) => ValueView::Bool(b),
            ConfigValue::Number(s) => ValueView::Number(s@),
            ConfigValue::Text(s) => ValueView::Text(s@),
            ConfigValue::List(items) => ValueView::List(item_views(items@)),
            ConfigValue::Other(s) => ValueView::Other(s@),
        }
    }
}

impl View for ConfigEntry {
    type V = EntryView;

    open spec fn view(&self) -> EntryView {
        EntryView { key: self.key@, value: self.value@ }
    }
}

pub open spec fn item_views(items: Seq<ListItem>) -> Seq<ItemView> {
    Seq::new(items.len(), |i: int| items[i]@)
}

pub open spec fn entry_views(entries: Seq<ConfigEntry>) -> Seq<EntryView> {
    Seq::new(entries.len(), |i: int| entries[i]@)
}

pub open spec fn is_zero_text(n: Seq<char>) -> bool {
    n == "0.0"@ || n == "-0.0"@
}

/// Two numbers are equal: as written, or as the two zeros.
pub open spec fn same_number(a: Seq<char>, b: Seq<char>) -> bool {
    a == b || (is_zero_text(a) && is_zero_text(b))
}

pub open spec fn same_item(a: ItemView, b: ItemView) -> bool {
    match (a, b) {
        (ItemView::Text(x), ItemView::Text(y)) => x == y,
        (ItemView::Number(x), ItemView::Number(y)) => same_number(x, y),
        (ItemView::Other(x), ItemView::Other(y)) => x == y,
        _ => false,
    }
}

/// Two values are equal.
pub open spec fn same_value(a: ValueView, b: ValueView) -> bool {
    match (a, b) {
        (ValueView::Null, ValueView::Null) => true,
        (ValueView::Bool(x), ValueView::Bool(y)) => x == y,
        (ValueView::Number(x), ValueView::Number(y)) => same_number(x, y),
        (ValueView::Text(x), ValueView::Text(y)) => x == y,
        (ValueView::List(x), ValueView::List(y)) => x.len() == y.len() && forall|i: int|
            0 <= i < x.len() ==> same_item(#[trigger] x[i], y[i]),
        (ValueView::Other(x), ValueView::Other(y)) => x == y,
        _ => false,
    }
}

fn numbers_equal(a: &str, b: &str) -> (r: bool)
    ensures
        r == same_number(a@, b@),
{
    let a_zero: bool = same_text(a, "0.0") || same_text(a, "-0.0");
    let b_zero: bool = same_text(b, "0.0") || same_text(b, "-0.0");
    same_text(a, b) || (a_zero && b_zero)
}

fn items_equal(a: &ListItem, b: &ListItem) -> (r: bool)
    ensures
        r == same_item(a@, b@),
{
    match (a, b) {
        (ListItem::Text(x), ListItem::Text(y)) => same_text(x.as_str(), y.as_str()),
        (ListItem::Number(x), ListItem::Number(y)) => numbers_equal(x.as_str(), y.as_str()),
        (ListItem::Other(x), ListItem::Other(y)) => same_text(x.as_str(), y.as_str()),
        _ => false,
    }
}

fn values_equal(a: &ConfigValue, b: &ConfigValue) -> (r: bool)
    ensures
        r == same_value(a@, b@),
{
    match (a, b) {
        (ConfigValue::Null, ConfigValue::Null) => true,
        (ConfigValue::Bool(x), ConfigValue::Bool(y)) => *x == *y,
        (ConfigValue::Number(x), ConfigValue::Number(y)) => numbers_equal(x.as_str(), y.as_str()),
        (ConfigValue::Text(x), ConfigValue::Text(y)) => same_text(x.as_str(), y.as_str()),
        (ConfigValue::Other(x), ConfigValue::Other(y)) => same_text(x.as_str(), y.as_str()),
        (ConfigValue::List(x), ConfigValue::List(y)) => {
            let ghost p = item_views(x@);
            let ghost q = item_views(y@);
            if x.len() != y.len() {
                return false;
            }
            let mut i: usize = 0;
            while i < x.len()
                invariant
                    i <= x.len(),
                    x.len() == y.len(),
                    p == item_views(x@),
                    q == item_views(y@),
                    a@ == ValueView::List(p),
                    b@ == ValueView::List(q),
                    forall|k: int| 0 <= k < i ==> same_item(#[trigger] p[k], q[k]),
                decreases x.len() - i,
            {
                if !items_equal(&x[i], &y[i]) {
                    assert(!same_item(p[i as int], q[i as int]));
                    return false;
                }
                i = i + 1;
            }
            true
        },
        _ => false,
    }
}

/// The value that a setting has by default.
pub open spec fn value_of(entries: Seq<EntryView>, key: Seq<char>) -> Option<ValueView>
    decreases entries.len(),
{
    if entries.len() == 0 {
        None
    } else if entries[0].key == key {
        Some(entries[0].value)
    } else {
        value_of(entries.drop_first(), key)
    }
}

fn find_value<'a>(entries: &'a Vec<ConfigEntry>, key: &str) -> (r: Option<&'a ConfigValue>)
    ensures
        match r {
            Some(v) => value_of(entry_views(entries@), key@) == Some(v@),
            None => value_of(entry_views(entries@), key@) is None,
        },
{
    let ghost views = entry_views(entries@);
    assert(views.skip(0) =~= views);
    let mut i: usize = 0;
    while i < entries.len()
        invariant
            i <= entries.len(),
            views == entry_views(entries@),
            value_of(views, key@) == value_of(views.skip(i as int), key@),
        decreases entries.len() - i,
    {
        proof {
            let rest = views.skip(i as int);
            assert(rest[0] == views[i as int]);
            assert(rest.drop_first() =~= views.skip(i + 1));
        }
        if same_text(entries[i].key.as_str(), key) {
            return Some(&entries[i].value);
        }
        i = i + 1;
    }
    None
}

pub open spec fn item_text(item: ItemView) -> Seq<char> {
    match item {
        ItemView::Text(s) => s,
        ItemView::Number(s) => s,
        ItemView::Other(s) => s,
    }
}

pub open spec fn item_texts(items: Seq<ItemView>) -> Seq<Seq<char>> {
    Seq::new(items.len(), |i: int| item_text(items[i]))
}

/// A setting's name as an argument.
pub open spec fn flag_text(key: Seq<char>) -> Seq<char> {
    "--"@ + key
}

/// The argument that sets a value: none for an absent one, the bare flag for
/// true, nothing for false, and the flag with its values otherwise.
pub open spec fn argument_text(key: Seq<char>, value: ValueView) -> Option<Seq<char>> {
    let flag = flag_text(key);
    match value {
        ValueView::Null => None,
        ValueView::Bool(b) => if b {
            Some(flag)
        } else {
            None
        },
        ValueView::Number(s) => Some(flag + " "@ + s),
        ValueView::Text(s) => Some(flag + " "@ + s),
        ValueView::List(items) => Some(flag + " "@ + text::joined(item_texts(items), " "@)),
        ValueView::Other(s) => Some(flag + " "@ + s),
    }
}

/// The argument of a setting: none where it has its default value.
pub open spec fn entry_argument(entry: EntryView, defaults: Seq<EntryView>) -> Option<Seq<char>> {
    match value_of(defaults, entry.key) {
        Some(v) => if same_value(v, entry.value) {
            None
        } else {
            argument_text(entry.key, entry.value)
        },
        None => argument_text(entry.key, entry.value),
    }
}

/// The arguments of the settings that differ from their defaults, in order.
pub open spec fn arguments(config: Seq<EntryView>, defaults: Seq<EntryView>) -> Seq<Seq<char>>
    decreases config.len(),
{
    if config.len() == 0 {
        Seq::empty()
    } else {
        let before = arguments(config.drop_last(), defaults);
        match entry_argument(config.last(), defaults) {
            Some(arg) => before.push(arg),
            None => before,
        }
    }
}

fn flag_with(key: &str, value: &str) -> (arg: String)
    ensures
        arg@ == flag_text(key@) + " "@ + value@,
{
    let mut arg: String = String::from_str("--");
    arg.append(key);
    arg.append(" ");
    arg.append(value);
    arg
}

fn list_text(items: &Vec<ListItem>) -> (r: String)
    ensures
        r@ == text::joined(item_texts(item_views(items@)), " "@),
{
    let mut parts: Vec<String> = Vec::new();
    let ghost wanted = item_texts(item_views(items@));
    let mut i: usize = 0;
    while i < items.len()
        invariant
            i <= items.len(),
            wanted == item_texts(item_views(items@)),
            parts.len() == i,
            forall|k: int| 0 <= k < i ==> (#[trigger] parts[k])@ == wanted[k],
        decreases items.len() - i,
    {
        match &items[i] {
            ListItem::Text(s) => parts.push(s.clone()),
            ListItem::Number(s) => parts.push(s.clone()),
            ListItem::Other(s) => parts.push(s.clone()),
        }
        i = i + 1;
    }
    assert(text::texts(parts@) =~= wanted);
    join(&parts, " ")
}

fn argument_of(key: &str, value: &ConfigValue) -> (r: Option<String>)
    ensures
        match r {
            Some(arg) => argument_text(key@, value@) == Some(arg@),
            None => argument_text(key@, value@) is None,
        },
{
    match value {
        ConfigValue::Null => None,
        ConfigValue::Bool(b) => {
            if *b {
                let mut arg: String = String::from_str("--");
                arg.append(key);
                Some(arg)
            } else {
                None
            }
        },
        ConfigValue::Number(s) => Some(flag_with(key, s.as_str())),
        ConfigValue::Text(s) => Some(flag_with(key, s.as_str())),
        ConfigValue::List(items) => Some(flag_with(key, list_text(items).as_str())),
        ConfigValue::Other(s) => Some(flag_with(key, s.as_str())),
    }
}

/// Converts settings back to command-line arguments, those that differ from
/// the defaults alone.
pub fn config_to_args(config: &Vec<ConfigEntry>, defaults: &Vec<ConfigEntry>) -> (args: Vec<String>)
    ensures
        text::texts(args@) == arguments(entry_views(config@), entry_views(defaults@)),
{
    let ghost views = entry_views(config@);
    let ghost base = entry_views(defaults@);
    let mut args: Vec<String> = Vec::new();
    let mut i: usize = 0;
    assert(views.take(0) =~= Seq::empty());
    assert(text::texts(args@) =~= Seq::empty());
    while i < config.len()
        invariant
            i <= config.len(),
            views == entry_views(config@),
            base == entry_views(defaults@),
            text::texts(args@) == arguments(views.take(i as int), base),
        decreases config.len() - i,
    {
        let entry: &ConfigEntry = &config[i];
        let ghost before = args@;
        proof {
            assert(views.take(i + 1).drop_last() =~= views.take(i as int));
            assert(views.take(i + 1).last() == entry@);
        }
        let skip: bool = match find_value(defaults, entry.key.as_str()) {
            Some(v) => values_equal(v, &entry.value),
            None => false,
        };
        if !skip {
            match argument_of(entry.key.as_str(), &entry.value) {
                Some(arg) => {
                    args.push(arg);
                    assert(text::texts(args@) =~= text::texts(before).push(arg@));
                },
                None => {},
            }
        }
        i = i + 1;
    }
    assert(views.take(views.len() as int) =~= views);
    args
}

/// Settings with one value replaced.
pub open spec fn with_value(entries: Seq<EntryView>, key: Seq<char>, value: ValueView) -> Seq<
    EntryView,
> {
    Seq::new(
        entries.len(),
        |i: int|
            if entries[i].key == key {
                EntryView { key, value }
            } else {
                entries[i]
            },
    )
}

/// Replaces the value of a setting.
fn set_value(entries: &mut Vec<ConfigEntry>, key: &str, value: &ConfigValue)
    ensures
        entry_views(final(entries)@) == with_value(entry_views(old(entries)@), key@, value@),
{
    let ghost before = entry_views(entries@);
    let mut i: usize = 0;
    while i < entries.len()
        invariant
            i <= entries.len(),
            entries.len() == before.len(),
            forall|k: int|
                0 <= k < entries.len() ==> (#[trigger] entries[k])@ == (if k < i {
                    with_value(before, key@, value@)[k]
                } else {
                    before[k]
                }),
        decreases entries.len() - i,
    {
        if same_text(entries[i].key.as_str(), key) {
            let replaced: ConfigEntry = ConfigEntry {
                key: key.to_owned(),
                value: copy_value(value),
            };
            entries.set(i, replaced);
        }
        i = i + 1;
    }
    assert(entry_views(entries@) =~= with_value(before, key@, value@));
}

fn copy_value(value: &ConfigValue) -> (r: ConfigValue)
    ensures
        r@ == value@,
{
    match value {
        ConfigValue::Null => ConfigValue::Null,
        ConfigValue::Bool(b) => ConfigValue::Bool(*b),
        ConfigValue::Number(s) => ConfigValue::Number(s.clone()),
        ConfigValue::Text(s) => ConfigValue::Text(s.clone()),
        ConfigValue::Other(s) => ConfigValue::Other(s.clone()),
        ConfigValue::List(items) => {
            let ghost wanted = item_views(items@);
            let mut out: Vec<ListItem> = Vec::new();
            let mut i: usize = 0;
            while i < items.len()
                invariant
                    i <= items.len(),
                    wanted == item_views(items@),
                    out.len() == i,
                    forall|k: int| 0 <= k < i ==> (#[trigger] out[k])@ == wanted[k],
                decreases items.len() - i,
            {
                let item: ListItem = match &items[i] {
                    ListItem::Text(s) => ListItem::Text(s.clone()),
                    ListItem::Number(s) => ListItem::Number(s.clone()),
                    ListItem::Other(s) => ListItem::Other(s.clone()),
                };
                out.push(item);
                i = i + 1;
            }
            assert(item_views(out@) =~= wanted);
            ConfigValue::List(out)
        },
    }
}

/// Which perceptual losses the command line switches on.
#[derive(Clone, Copy, Debug, PartialEq, Eq, Structural)]
pub struct PerceptualModes {
    pub wd_r: bool,
    pub lpips: bool,
}

pub open spec fn zero_value() -> ValueView {
    ValueView::Number("0.0"@)
}

pub open spec fn reset_if(reset: bool, entries: Seq<EntryView>, key: Seq<char>, value: ValueView) -> Seq<
    EntryView,
> {
    if reset {
        with_value(entries, key, value)
    } else {
        entries
    }
}

/// The settings that were read, less what the command line replaces: a
/// perceptual setting that it gives goes back to its default, and so does the
/// perceptual mode that the one it selects takes the place of.
pub open spec fn inherited(
    initial: Seq<EntryView>,
    default_warmup: ValueView,
    overrides: PerceptualArgOverrides,
    modes: PerceptualModes,
) -> Seq<EntryView> {
    let a = reset_if(
        overrides.wd_r_gamma || modes.lpips,
        initial,
        "wd-r-gamma"@,
        zero_value(),
    );
    let b = reset_if(overrides.wd_r_warmup_iters, a, "wd-r-warmup-iters"@, default_warmup);
    reset_if(overrides.lpips_loss_weight || modes.wd_r, b, "lpips-loss-weight"@, zero_value())
}

/// The words of arguments, one after another.
pub open spec fn all_words(args: Seq<Seq<char>>) -> Seq<Seq<char>>
    decreases args.len(),
{
    if args.len() == 0 {
        Seq::empty()
    } else {
        all_words(args.drop_last()) + text::words(args.last())
    }
}

fn push_words(tokens: &mut Vec<String>, args: &Vec<String>)
    ensures
        text::texts(final(tokens)@) == text::texts(old(tokens)@) + all_words(
            text::texts(args@),
        ),
{
    let ghost start = text::texts(tokens@);
    let ghost list = text::texts(args@);
    let mut i: usize = 0;
    assert(all_words(list.take(0)) =~= Seq::empty());
    assert(start + Seq::<Seq<char>>::empty() =~= start);
    while i < args.len()
        invariant
            i <= args.len(),
            list == text::texts(args@),
            text::texts(tokens@) == start + all_words(list.take(i as int)),
        decreases args.len() - i,
    {
        let ghost before = text::texts(tokens@);
        let words: Vec<String> = split_words(args[i].as_str());
        let ghost added = text::texts(words@);
        let mut j: usize = 0;
        assert(before + added.take(0) =~= before);
        while j < words.len()
            invariant
                j <= words.len(),
                added == text::texts(words@),
                text::texts(tokens@) == before + added.take(j as int),
            decreases words.len() - j,
        {
            let ghost sofar = tokens@;
            tokens.push(words[j].clone());
            proof {
                assert(text::texts(tokens@) =~= text::texts(sofar).push(added[j as int]));
                assert(before + added.take(j + 1) =~= (before + added.take(j as int)).push(
                    added[j as int],
                ));
            }
            j = j + 1;
        }
        proof {
            assert(added.take(added.len() as int) =~= added);
            assert(list.take(i + 1).drop_last() =~= list.take(i as int));
            assert(list.take(i + 1).last() == args[i as int]@);
            assert(start + (all_words(list.take(i as int)) + added) =~= (start + all_words(
                list.take(i as int),
            )) + added);
        }
        i = i + 1;
    }
    assert(list.take(list.len() as int) =~= list);
}

/// The combined command line of a merge: the program's name, the arguments of
/// the settings that were read, then those of the command line, which so take
/// precedence. `cli_modes` says which perceptual weights of the command line
/// are positive.
pub fn merge_configs_with_perceptual_overrides(
    initial: Vec<ConfigEntry>,
    cli: &Vec<ConfigEntry>,
    defaults: &Vec<ConfigEntry>,
    cli_modes: PerceptualModes,
    overrides: PerceptualArgOverrides,
) -> (tokens: Vec<String>)
    requires
        value_of(entry_views(defaults@), "wd-r-warmup-iters"@) is Some,
    ensures
        text::texts(tokens@) == seq!["brush"@] + all_words(
            arguments(
                inherited(
                    entry_views(initial@),
                    value_of(entry_views(defaults@), "wd-r-warmup-iters"@)->0,
                    overrides,
                    cli_modes,
                ),
                entry_views(defaults@),
            ),
        ) + all_words(arguments(entry_views(cli@), entry_views(defaults@))),
{
    let mut initial: Vec<ConfigEntry> = initial;
    let zero: ConfigValue = ConfigValue::Number(String::from_str("0.0"));
    if overrides.wd_r_gamma || cli_modes.lpips {
        set_value(&mut initial, "wd-r-gamma", &zero);
    }
    if overrides.wd_r_warmup_iters {
        match find_value(defaults, "wd-r-warmup-iters") {
            Some(value) => set_value(&mut initial, "wd-r-warmup-iters", value),
            None => {},
        }
    }
    if overrides.lpips_loss_weight || cli_modes.wd_r {
        set_value(&mut initial, "lpips-loss-weight", &zero);
    }
    let initial_args: Vec<String> = config_to_args(&initial, defaults);
    let cli_args: Vec<String> = config_to_args(cli, defaults);
    let mut tokens: Vec<String> = Vec::new();
    tokens.push(String::from_str("brush"));
    assert(text::texts(tokens@) =~= seq!["brush"@]);
    push_words(&mut tokens, &initial_args);
    push_words(&mut tokens, &cli_args);
    tokens
}

/// The combined command line of a merge without explicit perceptual settings.
pub fn merge_configs(
    initial: Vec<ConfigEntry>,
    cli: &Vec<ConfigEntry>,
    defaults: &Vec<ConfigEntry>,
    cli_modes: PerceptualModes,
) -> (tokens: Vec<String>)
    requires
        value_of(entry_views(defaults@), "wd-r-warmup-iters"@) is Some,
    ensures
        text::texts(tokens@) == seq!["brush"@] + all_words(
            arguments(
                inherited(
                    entry_views(initial@),
                    value_of(entry_views(defaults@), "wd-r-warmup-iters"@)->0,
                    PerceptualArgOverrides {
                        wd_r_gamma: false,
                        wd_r_warmup_iters: false,
                        lpips_loss_weight: false,
                    },
                    cli_modes,
                ),
                entry_views(defaults@),
            ),
        ) + all_words(arguments(entry_views(cli@), entry_views(defaults@))),
{
    merge_configs_with_perceptual_overrides(
        initial,
        cli,
        defaults,
        cli_modes,
        PerceptualArgOverrides::default(),
    )
}

/// The command line of an argument file: none where the file holds no words.
pub fn args_file_tokens(content: &str) -> (r: Option<Vec<String>>)
    ensures
        match r {
            None => text::words(content@).len() == 0,
            Some(tokens) => text::words(content@).len() > 0 && text::texts(tokens@) == seq![
                "brush"@,
            ] + text::words(content@),
        },
{
    let args: Vec<String> = split_args_str(content);
    if args.len() == 0 {
        assert(text::texts(args@).len() == 0);
        return None;
    }
    let mut tokens: Vec<String> = Vec::new();
    tokens.push(String::from_str("brush"));
    let ghost words = text::words(content@);
    assert(text::texts(tokens@) =~= seq!["brush"@] + words.take(0));
    let mut i: usize = 0;
    while i < args.len()
        invariant
            i <= args.len(),
            words == text::texts(args@),
            text::texts(tokens@) == seq!["brush"@] + words.take(i as int),
        decreases args.len() - i,
    {
        let ghost before = tokens@;
        tokens.push(args[i].clone());
        proof {
            assert(text::texts(tokens@) =~= text::texts(before).push(words[i as int]));
            assert(seq!["brush"@] + words.take(i + 1) =~= (seq!["brush"@] + words.take(
                i as int,
            )).push(words[i as int]));
        }
        i = i + 1;
    }
    assert(words.take(words.len() as int) =~= words);
    Some(tokens)
}

pub open spec fn is_args_file(name: Option<String>) -> bool {
    name is Some && name->0@ == "args.txt"@
}

/// Whether a file of settings is among the files of a source, by their names.
pub fn has_args_file(file_names: &Vec<Option<String>>) -> (r: bool)
    ensures
        r == exists|i: int|
            0 <= i < file_names.len() && is_args_file(#[trigger] file_names[i]),
{
    let mut i: usize = 0;
    while i < file_names.len()
        invariant
            i <= file_names.len(),
            forall|k: int|
                0 <= k < i ==> !is_args_file(#[trigger] file_names[k]),
        decreases file_names.len() - i,
    {
        match &file_names[i] {
            Some(name) => {
                if same_text(name.as_str(), "args.txt") {
                    assert(is_args_file(file_names[i as int]));
                    return true;
                }
            },
            None => {},
        }
        i = i + 1;
    }
    false
}

/// Every value is the same as itself.
proof fn lemma_same_value_reflexive(v: ValueView)
    ensures
        same_value(v, v),
{
    match v {
        ValueView::List(items) => {
            assert forall|i: int| 0 <= i < items.len() implies same_item(
                #[trigger] items[i],
                items[i],
            ) by {}
        },
        _ => {},
    }
}

proof fn lemma_value_of_entry(entries: Seq<EntryView>, i: int)
    requires
        0 <= i < entries.len(),
        forall|a: int, b: int| 0 <= a < b < entries.len() ==> entries[a].key != entries[b].key,
    ensures
        value_of(entries, entries[i].key) == Some(entries[i].value),
    decreases i,
{
    if i > 0 {
        let rest = entries.drop_first();
        assert forall|a: int, b: int| 0 <= a < b < rest.len() implies rest[a].key
            != rest[b].key by {
            assert(entries[a + 1].key != entries[b + 1].key);
        }
        lemma_value_of_entry(rest, i - 1);
        assert(rest[i - 1] == entries[i]);
        assert(entries[0].key != entries[i].key);
    }
}

/// A setting that has its default value is never written.
pub proof fn default_values_are_left_out(entry: EntryView, defaults: Seq<EntryView>)
    requires
        value_of(defaults, entry.key) == Some(entry.value),
    ensures
        entry_argument(entry, defaults) is None,
{
    lemma_same_value_reflexive(entry.value);
}

/// The defaults themselves need no arguments.
pub proof fn defaults_need_no_arguments(defaults: Seq<EntryView>)
    requires
        forall|a: int, b: int| 0 <= a < b < defaults.len() ==> defaults[a].key != defaults[b].key,
    ensures
        arguments(defaults, defaults) == Seq::<Seq<char>>::empty(),
{
    lemma_no_arguments(defaults, defaults.len() as int);
    assert(defaults.take(defaults.len() as int) =~= defaults);
}

proof fn lemma_no_arguments(defaults: Seq<EntryView>, n: int)
    requires
        0 <= n <= defaults.len(),
        forall|a: int, b: int| 0 <= a < b < defaults.len() ==> defaults[a].key != defaults[b].key,
    ensures
        arguments(defaults.take(n), defaults) == Seq::<Seq<char>>::empty(),
    decreases n,
{
    if n > 0 {
        lemma_no_arguments(defaults, n - 1);
        lemma_value_of_entry(defaults, n - 1);
        default_values_are_left_out(defaults[n - 1], defaults);
        assert(defaults.take(n).drop_last() =~= defaults.take(n - 1));
        assert(defaults.take(n).last() == defaults[n - 1]);
    }
}

/// A perceptual mode that the command line selects leaves nothing of the other
/// one that was read: its weight is not among the arguments, given that it is
/// off by default.
pub proof fn later_perceptual_mode_replaces_the_earlier(
    initial: Seq<EntryView>,
    defaults: Seq<EntryView>,
    default_warmup: ValueView,
    overrides: PerceptualArgOverrides,
    modes: PerceptualModes,
    i: int,
)
    requires
        0 <= i < initial.len(),
        value_of(defaults, "wd-r-gamma"@) == Some(zero_value()),
        value_of(defaults, "lpips-loss-weight"@) == Some(zero_value()),
    ensures
        inherited(initial, default_warmup, overrides, modes).len() == initial.len(),
        (modes.wd_r || overrides.lpips_loss_weight) && initial[i].key == "lpips-loss-weight"@
            ==> entry_argument(
            inherited(initial, default_warmup, overrides, modes)[i],
            defaults,
        ) is None,
        (modes.lpips || overrides.wd_r_gamma) && initial[i].key == "wd-r-gamma"@ ==> entry_argument(
            inherited(initial, default_warmup, overrides, modes)[i],
            defaults,
        ) is None,
{
    reveal_strlit("lpips-loss-weight");
    reveal_strlit("wd-r-gamma");
    reveal_strlit("wd-r-warmup-iters");
    assert("lpips-loss-weight"@[0] == 'l' && "wd-r-gamma"@[0] == 'w' && "wd-r-warmup-iters"@[0]
        == 'w');
    assert("wd-r-gamma"@.len() != "wd-r-warmup-iters"@.len());
    lemma_same_value_reflexive(zero_value());
}

/// Settings other than the perceptual ones are inherited as they were read.
pub proof fn other_settings_are_kept(
    initial: Seq<EntryView>,
    default_warmup: ValueView,
    overrides: PerceptualArgOverrides,
    modes: PerceptualModes,
    i: int,
)
    requires
        0 <= i < initial.len(),
        initial[i].key != "wd-r-gamma"@,
        initial[i].key != "wd-r-warmup-iters"@,
        initial[i].key != "lpips-loss-weight"@,
    ensures
        inherited(initial, default_warmup, overrides, modes)[i] == initial[i],
{
}

/// The values of a setting come back as tokens of their own, after its flag,
/// where they and its name hold no white space and are not empty.
pub proof fn list_values_become_tokens(key: Seq<char>, items: Seq<ItemView>)
    requires
        text::is_word(flag_text(key)),
        forall|i: int| 0 <= i < items.len() ==> text::is_word(#[trigger] item_text(items[i])),
    ensures
        text::words(argument_text(key, ValueView::List(items))->0) == seq![flag_text(key)]
            + item_texts(items),
{
    reveal_strlit(" ");
    assert(" "@ =~= seq![' ']);
    let parts = item_texts(items);
    assert forall|i: int| 0 <= i < parts.len() implies text::is_word(#[trigger] parts[i]) by {
        assert(text::is_word(item_text(items[i])));
    }
    text::words_of_joined(parts);
    text::words_across_a_space(flag_text(key), text::joined(parts, " "@));
    text::words_of_a_word(flag_text(key));
}

} // verus!

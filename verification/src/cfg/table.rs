use vstd::prelude::*;
use crate::cfg::{split_key, split_key_spec};
use crate::text::lemma_find;

verus! {

/// A config value as the contracts see it.
pub enum ValueView {
    String(Seq<char>),
    Boolean(bool),
    Integer(i64),
    Table(Seq<(Seq<char>, ValueView)>),
    Other(Seq<char>),
}

/// A config value: a string, a boolean, an integer, a nested table, or any other TOML value
/// (a float, an array, a date), which the config only stores, in its TOML form.
#[derive(Debug)]
pub enum ConfigValue {
    String(String),
    Boolean(bool),
    Integer(i64),
    Table(ConfigTable),
    Other(String),
}

/// A table of config values, by key, in the order the keys were added.
#[derive(Debug)]
pub struct ConfigTable {
    pub entries: Vec<(String, ConfigValue)>,
}

impl ConfigValue {
    pub open spec fn view(&self) -> ValueView
        decreases self,
    {
        match self {
            ConfigValue::String(s) => ValueView::String(s@),
            ConfigValue::Boolean(b) => ValueView::Boolean(*b),
            ConfigValue::Integer(i) => ValueView::Integer(*i),
            ConfigValue::Table(t) => ValueView::Table(entries_view(t.entries@)),
            ConfigValue::Other(s) => ValueView::Other(s@),
        }
    }
}

/// The entries of a table as the contracts see them.
pub open spec fn entries_view(s: Seq<(String, ConfigValue)>) -> Seq<(Seq<char>, ValueView)>
    decreases s,
{
    if s.len() == 0 {
        Seq::empty()
    } else {
        entries_view(s.drop_last()).push((s.last().0@, s.last().1.view()))
    }
}

impl ConfigTable {
    pub open spec fn view(&self) -> Seq<(Seq<char>, ValueView)> {
        entries_view(self.entries@)
    }
}

/// Each entry is seen as its key's characters and its value's view.
pub proof fn lemma_entries_view(s: Seq<(String, ConfigValue)>)
    ensures
        entries_view(s).len() == s.len(),
        forall|i: int| 0 <= i < s.len() ==> #[trigger] entries_view(s)[i] == (s[i].0@, s[i].1.view()),
    decreases s.len(),
{
    if s.len() > 0 {
        lemma_entries_view(s.drop_last());
    }
}

/// The index of the first entry stored under `k`.
pub open spec fn key_index(t: Seq<(Seq<char>, ValueView)>, k: Seq<char>) -> Option<int>
    decreases t.len(),
{
    if t.len() == 0 {
        None
    } else {
        match key_index(t.drop_last(), k) {
            Some(i) => Some(i),
            None => if t.last().0 == k { Some(t.len() - 1) } else { None },
        }
    }
}

/// The value stored under `k`, if any.
pub open spec fn entry(t: Seq<(Seq<char>, ValueView)>, k: Seq<char>) -> Option<ValueView> {
    match key_index(t, k) {
        Some(i) => Some(t[i].1),
        None => None,
    }
}

/// `key_index` finds the first entry under `k`, and none where there is none.
pub proof fn lemma_key_index(t: Seq<(Seq<char>, ValueView)>, k: Seq<char>)
    ensures
        key_index(t, k) matches Some(i) ==> 0 <= i < t.len() && t[i].0 == k
            && forall|j: int| 0 <= j < i ==> t[j].0 != k,
        key_index(t, k) is None ==> forall|j: int| 0 <= j < t.len() ==> t[j].0 != k,
    decreases t.len(),
{
    if t.len() > 0 {
        let d = t.drop_last();
        lemma_key_index(d, k);
        assert forall|j: int| 0 <= j < d.len() implies #[trigger] d[j] == t[j] by {}
        match key_index(d, k) {
            Some(i) => {
                assert(key_index(t, k) == Some(i));
                assert forall|j: int| 0 <= j < i implies t[j].0 != k by {
                    assert(d[j] == t[j]);
                }
            },
            None => {
                if t.last().0 == k {
                    assert(key_index(t, k) == Some(t.len() - 1));
                    assert forall|j: int| 0 <= j < t.len() - 1 implies t[j].0 != k by {
                        assert(d[j] == t[j]);
                    }
                } else {
                    assert(key_index(t, k) is None);
                    assert forall|j: int| 0 <= j < t.len() implies t[j].0 != k by {
                        if j < d.len() {
                            assert(d[j] == t[j]);
                        }
                    }
                }
            },
        }
    }
}

/// The tail after the first dot of a key is shorter than the key.
pub proof fn lemma_split_key_shorter(key: Seq<char>)
    ensures
        split_key_spec(key).1 matches Some(tail) ==> tail.len() < key.len(),
{
    lemma_find(key, seq!['.'], 0);
}

/// The value at a dotted key: each segment but the last names a nested table.
pub open spec fn value_at(t: Seq<(Seq<char>, ValueView)>, key: Seq<char>) -> Option<ValueView>
    decreases key.len(),
{
    let (head, tail) = split_key_spec(key);
    match tail {
        None => entry(t, head),
        Some(tail) => match entry(t, head) {
            Some(ValueView::Table(sub)) => {
                proof { lemma_split_key_shorter(key); }
                value_at(sub, tail)
            },
            _ => None,
        },
    }
}

/// A value can be set at a dotted key unless a segment but the last names a value that is
/// not a table.
pub open spec fn settable(t: Seq<(Seq<char>, ValueView)>, key: Seq<char>) -> bool
    decreases key.len(),
{
    let (head, tail) = split_key_spec(key);
    match tail {
        None => true,
        Some(tail) => match entry(t, head) {
            None => true,
            Some(ValueView::Table(sub)) => {
                proof { lemma_split_key_shorter(key); }
                settable(sub, tail)
            },
            Some(_) => false,
        },
    }
}

/// The table with `v` set at a dotted key: missing tables on the way are added at the end,
/// and a value already under the last segment is replaced in place.
pub open spec fn set_at(t: Seq<(Seq<char>, ValueView)>, key: Seq<char>, v: ValueView) -> Seq<(Seq<char>, ValueView)>
    decreases key.len(),
{
    let (head, tail) = split_key_spec(key);
    match tail {
        None => match key_index(t, head) {
            Some(i) => t.update(i, (head, v)),
            None => t.push((head, v)),
        },
        Some(tail) => {
            proof { lemma_split_key_shorter(key); }
            match key_index(t, head) {
                Some(i) => match t[i].1 {
                    ValueView::Table(sub) => t.update(i, (head, ValueView::Table(set_at(sub, tail, v)))),
                    _ => t,
                },
                None => t.push((head, ValueView::Table(set_at(Seq::empty(), tail, v)))),
            }
        },
    }
}

/// The index of the first entry stored under `key`.
fn find_index(entries: &Vec<(String, ConfigValue)>, key: &String) -> (r: Option<usize>)
    ensures
        match r {
            Some(i) => key_index(entries_view(entries@), key@) == Some(i as int),
            None => key_index(entries_view(entries@), key@) is None,
        },
{
    proof {
        lemma_entries_view(entries@);
        lemma_key_index(entries_view(entries@), key@);
    }
    let mut i: usize = 0;
    while i < entries.len()
        invariant
            i <= entries@.len(),
            entries_view(entries@).len() == entries@.len(),
            forall|j: int| 0 <= j < entries@.len() ==> #[trigger] entries_view(entries@)[j] == (entries@[j].0@, entries@[j].1.view()),
            forall|j: int| 0 <= j < i ==> entries@[j].0@ != key@,
        decreases entries@.len() - i,
    {
        if entries[i].0 == *key {
            proof {
                let t = entries_view(entries@);
                lemma_key_index(t, key@);
                assert(t[i as int].0 == key@);
                if key_index(t, key@) is None {
                    assert(false);
                } else {
                    let k = key_index(t, key@)->0;
                    if k < i {
                        assert(t[k].0 == entries@[k].0@);
                    } else if k > i {
                        assert(t[i as int].0 != key@);
                    }
                }
            }
            return Some(i);
        }
        i = i + 1;
    }
    proof {
        let t = entries_view(entries@);
        if key_index(t, key@) is Some {
            let k = key_index(t, key@)->0;
            assert(t[k].0 == entries@[k].0@);
        }
    }
    None
}

impl ConfigTable {
    /// An empty table.
    pub fn new() -> (t: ConfigTable)
        ensures
            t@ == Seq::<(Seq<char>, ValueView)>::empty(),
    {
        ConfigTable { entries: Vec::new() }
    }
}

/// The value at a dotted key, looking through nested tables: `None` where a segment is
/// missing, or a segment but the last names a value that is not a table.
pub fn get_value<'t>(table: &'t ConfigTable, key: &str) -> (r: Option<&'t ConfigValue>)
    ensures
        match r {
            Some(v) => value_at(table@, key@) == Some(v@),
            None => value_at(table@, key@) is None,
        },
    decreases key@.len(),
{
    let (head, tail) = split_key(key);
    proof {
        lemma_entries_view(table.entries@);
        lemma_split_key_shorter(key@);
        lemma_key_index(table@, head@);
    }
    match find_index(&table.entries, &head) {
        None => None,
        Some(i) => {
            let v = &table.entries[i].1;
            match tail {
                None => Some(v),
                Some(tail) => match v {
                    ConfigValue::Table(sub) => get_value(sub, tail.as_str()),
                    _ => None,
                },
            }
        },
    }
}

/// Whether a value can be set at a dotted key: no segment but the last names a value that
/// is not a table.
pub fn is_settable(table: &ConfigTable, key: &str) -> (r: bool)
    ensures
        r == settable(table@, key@),
    decreases key@.len(),
{
    let (head, tail) = split_key(key);
    proof {
        lemma_entries_view(table.entries@);
        lemma_split_key_shorter(key@);
        lemma_key_index(table@, head@);
    }
    match tail {
        None => true,
        Some(tail) => match find_index(&table.entries, &head) {
            None => true,
            Some(i) => match &table.entries[i].1 {
                ConfigValue::Table(sub) => is_settable(sub, tail.as_str()),
                _ => false,
            },
        },
    }
}

/// Sets `value` at a dotted key, adding the missing nested tables on the way.
pub fn set_value(table: &mut ConfigTable, key: &str, value: ConfigValue)
    requires
        settable(old(table)@, key@),
    ensures
        final(table)@ == set_at(old(table)@, key@, value@),
    decreases key@.len(),
{
    let ghost t0 = table@;
    let ghost e0 = table.entries@;
    let (head, tail) = split_key(key);
    proof {
        lemma_entries_view(e0);
        lemma_split_key_shorter(key@);
        lemma_key_index(t0, head@);
    }
    let found = find_index(&table.entries, &head);
    match tail {
        None => {
            match found {
                Some(i) => {
                    let _ = table.entries.remove(i);
                    table.entries.insert(i, (head, value));
                    proof {
                        lemma_entries_view(table.entries@);
                        assert(table@ =~= t0.update(i as int, (head@, value@)));
                    }
                },
                None => {
                    table.entries.push((head, value));
                    proof {
                        lemma_entries_view(table.entries@);
                        assert(table@ =~= t0.push((head@, value@)));
                    }
                },
            }
        },
        Some(tail) => {
            match found {
                Some(i) => {
                    let (k, v) = table.entries.remove(i);
                    match v {
                        ConfigValue::Table(mut sub) => {
                            let ghost sub0 = sub@;
                            assert(t0[i as int].1 == ValueView::Table(sub0));
                            set_value(&mut sub, tail.as_str(), value);
                            table.entries.insert(i, (k, ConfigValue::Table(sub)));
                            proof {
                                lemma_entries_view(table.entries@);
                                assert(table@ =~= t0.update(i as int, (head@, ValueView::Table(set_at(sub0, tail@, value@)))));
                            }
                        },
                        other => {
                            proof {
                                assert(false);
                            }
                            table.entries.insert(i, (k, other));
                        },
                    }
                },
                None => {
                    let mut sub = ConfigTable::new();
                    set_value(&mut sub, tail.as_str(), value);
                    table.entries.push((head, ConfigValue::Table(sub)));
                    proof {
                        lemma_entries_view(table.entries@);
                        assert(table@ =~= t0.push((head@, ValueView::Table(set_at(Seq::empty(), tail@, value@)))));
                    }
                },
            }
        },
    }
}

/// An entry under `k` with none before it is the one `key_index` finds.
proof fn lemma_key_index_is(t: Seq<(Seq<char>, ValueView)>, k: Seq<char>, i: int)
    requires
        0 <= i < t.len(),
        t[i].0 == k,
        forall|j: int| 0 <= j < i ==> t[j].0 != k,
    ensures
        key_index(t, k) == Some(i),
{
    lemma_key_index(t, k);
    if let Some(m) = key_index(t, k) {
        if m < i {
            assert(t[m].0 != k);
        } else if m > i {
            assert(t[i].0 != k);
        }
    }
}

/// Replacing an entry by one under the same key, or adding one at the end under another
/// key, leaves where each key is first found.
proof fn lemma_key_index_frame(t: Seq<(Seq<char>, ValueView)>, u: Seq<(Seq<char>, ValueView)>, k: Seq<char>)
    requires
        t.len() <= u.len(),
        forall|j: int| 0 <= j < t.len() ==> #[trigger] u[j].0 == t[j].0,
        forall|j: int| t.len() <= j < u.len() ==> #[trigger] u[j].0 != k,
    ensures
        key_index(u, k) == key_index(t, k),
{
    lemma_key_index(t, k);
    lemma_key_index(u, k);
    match key_index(t, k) {
        Some(m) => {
            assert forall|j: int| 0 <= j < m implies u[j].0 != k by {
                assert(t[j].0 != k);
            }
            lemma_key_index_is(u, k, m);
        },
        None => {
            if let Some(m) = key_index(u, k) {
                if m < t.len() {
                    assert(t[m].0 == u[m].0);
                }
            }
        },
    }
}

/// Reading a key just set gives the value set.
pub proof fn lemma_get_after_set(t: Seq<(Seq<char>, ValueView)>, key: Seq<char>, v: ValueView)
    requires
        settable(t, key),
    ensures
        value_at(set_at(t, key, v), key) == Some(v),
    decreases key.len(),
{
    let (head, tail) = split_key_spec(key);
    lemma_split_key_shorter(key);
    lemma_key_index(t, head);
    let u = set_at(t, key, v);
    match key_index(t, head) {
        Some(i) => {
            assert forall|j: int| 0 <= j < t.len() implies #[trigger] u[j].0 == t[j].0 by {}
            lemma_key_index_frame(t, u, head);
            if let Some(tail) = tail {
                if let ValueView::Table(sub) = t[i].1 {
                    lemma_get_after_set(sub, tail, v);
                }
            }
        },
        None => {
            assert(u.drop_last() =~= t);
            lemma_key_index_is(u, head, t.len() as int);
            match tail {
                Some(tail) => {
                    lemma_get_after_set(Seq::empty(), tail, v);
                },
                None => {},
            }
        },
    }
}

/// Setting a key leaves every key under another first segment as it was.
pub proof fn lemma_set_keeps_other_keys(t: Seq<(Seq<char>, ValueView)>, key: Seq<char>, v: ValueView, other: Seq<char>)
    requires
        settable(t, key),
        split_key_spec(key).0 != split_key_spec(other).0,
    ensures
        value_at(set_at(t, key, v), other) == value_at(t, other),
{
    let head = split_key_spec(key).0;
    let head2 = split_key_spec(other).0;
    lemma_key_index(t, head);
    let u = set_at(t, key, v);
    match key_index(t, head) {
        Some(i) => {
            assert forall|j: int| 0 <= j < t.len() implies #[trigger] u[j].0 == t[j].0 by {}
            lemma_key_index_frame(t, u, head2);
            if key_index(t, head2) is Some {
                let m = key_index(t, head2)->0;
                lemma_key_index(t, head2);
                assert(m != i);
                assert(u[m] == t[m]);
            }
        },
        None => {
            assert forall|j: int| 0 <= j < t.len() implies #[trigger] u[j].0 == t[j].0 by {}
            lemma_key_index_frame(t, u, head2);
            lemma_key_index(t, head2);
            if key_index(t, head2) is Some {
                let m = key_index(t, head2)->0;
                assert(u[m] == t[m]);
            }
        },
    }
}

#[verifier::external_type_specification]
#[verifier::external_body]
pub struct ExTomlValue(toml::Value);

#[verifier::external_type_specification]
#[verifier::external_body]
#[verifier::reject_recursive_types(K)]
#[verifier::reject_recursive_types(V)]
pub struct ExTomlMap<K, V>(toml::map::Map<K, V>);

/// The table that `toml::from_str` reads from a TOML document, as the contracts see it
/// (`None` where the text is not a TOML document).
pub uninterp spec fn parsed_toml(text: Seq<char>) -> Option<Seq<(Seq<char>, ValueView)>>;

/// The TOML document that `toml::to_string_pretty` writes for a table.
pub uninterp spec fn toml_text(t: Seq<(Seq<char>, ValueView)>) -> Seq<char>;

/// `toml::from_str` of a TOML document into a table, taken over entry by entry: strings,
/// booleans, integers and tables as they are, other values in their TOML form. `None`
/// where the text is not a TOML document.
#[verifier::external_body]
pub fn parse_config_table(text: &str) -> (r: Option<ConfigTable>)
    ensures
        r is None <==> parsed_toml(text@) is None,
        r matches Some(t) ==> Some(t@) == parsed_toml(text@),
{
    toml::from_str::<toml::Table>(text).ok().map(table_from_toml)
}

/// A value with no part kept in TOML form: strings, booleans, integers, and tables of such.
pub open spec fn plain_value(v: ValueView) -> bool
    decreases v,
{
    match v {
        ValueView::Other(_) => false,
        ValueView::Table(entries) => plain_entries(entries),
        _ => true,
    }
}

/// Every entry's value is plain.
pub open spec fn plain_entries(s: Seq<(Seq<char>, ValueView)>) -> bool
    decreases s,
{
    if s.len() == 0 {
        true
    } else {
        plain_entries(s.drop_last()) && plain_value(s.last().1)
    }
}

/// `toml::to_string_pretty` of a table, taken over entry by entry. A table of strings,
/// booleans, integers and nested tables is always written; otherwise `None` where a value
/// kept in TOML form does not read back as one, or where the crate refuses to write the
/// table, which is left unsaid.
#[verifier::external_body]
pub fn config_table_text(t: &ConfigTable) -> (s: Option<String>)
    ensures
        s matches Some(x) ==> x@ == toml_text(t@),
        plain_entries(t@) ==> s is Some,
{
    table_to_toml(t).and_then(|table| toml::to_string_pretty(&table).ok())
}

/// Takes a parsed TOML table over entry by entry, in the crate's order; used only by the
/// body of `parse_config_table`.
#[verifier::external_body]
fn table_from_toml(table: toml::Table) -> ConfigTable {
    let mut entries = Vec::new();
    for (key, value) in table {
        entries.push((key, value_from_toml(value)));
    }
    ConfigTable { entries }
}

/// One TOML value, one arm per kind; used only by `table_from_toml`.
#[verifier::external_body]
fn value_from_toml(value: toml::Value) -> ConfigValue {
    match value {
        toml::Value::String(s) => ConfigValue::String(s),
        toml::Value::Boolean(b) => ConfigValue::Boolean(b),
        toml::Value::Integer(i) => ConfigValue::Integer(i),
        toml::Value::Table(t) => ConfigValue::Table(table_from_toml(t)),
        other => ConfigValue::Other(other.to_string()),
    }
}

/// A table as a TOML table, entry by entry; used only by the body of `config_table_text`.
#[verifier::external_body]
fn table_to_toml(table: &ConfigTable) -> Option<toml::Table> {
    let mut out = toml::Table::new();
    for (key, value) in table.entries.iter() {
        out.insert(key.clone(), value_to_toml(value)?);
    }
    Some(out)
}

/// One value as a TOML value, one arm per kind; used only by `table_to_toml`.
#[verifier::external_body]
fn value_to_toml(value: &ConfigValue) -> Option<toml::Value> {
    match value {
        ConfigValue::String(s) => Some(toml::Value::String(s.clone())),
        ConfigValue::Boolean(b) => Some(toml::Value::Boolean(*b)),
        ConfigValue::Integer(i) => Some(toml::Value::Integer(*i)),
        ConfigValue::Table(t) => Some(toml::Value::Table(table_to_toml(t)?)),
        ConfigValue::Other(text) => text.parse::<toml::Value>().ok(),
    }
}

} // verus!

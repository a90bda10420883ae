pub mod table;

use vstd::prelude::*;
use crate::text::{chars_of, find, lemma_find, trim, find_chars, trim_range, push_range};
use crate::cfg::table::{ConfigTable, ConfigValue, ValueView, get_value, value_at};

verus! {

/// A dotted config key split at its first dot: the first segment, and the rest if there
/// is a dot.
pub open spec fn split_key_spec(key: Seq<char>) -> (Seq<char>, Option<Seq<char>>) {
    match find(key, seq!['.'], 0) {
        None => (key, None),
        Some(i) => (key.take(i), Some(key.skip(i + 1))),
    }
}

/// A command line argument `key=value` as a trimmed key and a trimmed value, split at the
/// first `=`; nothing for an argument without one.
pub open spec fn cli_argument_spec(arg: Seq<char>) -> Option<(Seq<char>, Seq<char>)> {
    match find(arg, seq!['='], 0) {
        None => None,
        Some(i) => Some((trim(arg.take(i)), trim(arg.skip(i + 1)))),
    }
}

/// Splits a dotted config key at its first dot: `"a.b.c"` gives `"a"` and `"b.c"`.
pub fn split_key(key: &str) -> (r: (String, Option<String>))
    ensures
        r.0@ == split_key_spec(key@).0,
        match r.1 {
            Some(t) => split_key_spec(key@).1 == Some(t@),
            None => split_key_spec(key@).1 is None,
        },
{
    let s = chars_of(key);
    let n = s.len();
    let dot: Vec<char> = vec!['.'];
    assert(dot@ =~= seq!['.']);
    let mut head = String::new();
    match find_chars(&s, &dot, 0) {
        None => {
            push_range(&mut head, &s, 0, s.len());
            assert(s@.subrange(0, s@.len() as int) =~= s@);
            (head, None)
        },
        Some(i) => {
            proof {
                lemma_find(s@, dot@, 0);
                assert(find(s@, dot@, 0) == Some(i as int));
                assert(i + 1 <= s@.len());
            }
            push_range(&mut head, &s, 0, i);
            let mut tail = String::new();
            push_range(&mut tail, &s, i + 1, n);
            assert(s@.subrange(0, i as int) =~= s@.take(i as int));
            assert(s@.subrange(i + 1, s@.len() as int) =~= s@.skip(i + 1));
            (head, Some(tail))
        },
    }
}

/// Reads a command line argument of the form `key=value`, trimming both parts; `None`
/// for an argument without `=`.
pub fn parse_cli_argument(arg: &str) -> (r: Option<(String, String)>)
    ensures
        match r {
            Some(kv) => cli_argument_spec(arg@) == Some((kv.0@, kv.1@)),
            None => cli_argument_spec(arg@) is None,
        },
{
    let s = chars_of(arg);
    let eq: Vec<char> = vec!['='];
    assert(eq@ =~= seq!['=']);
    match find_chars(&s, &eq, 0) {
        None => None,
        Some(i) => {
            proof {
                lemma_find(s@, eq@, 0);
                assert(find(s@, eq@, 0) == Some(i as int));
                assert(i + 1 <= s@.len());
            }
            let n = s.len();
            assert(i < n);
            let (a, b) = trim_range(&s, 0, i);
            let (c, d) = trim_range(&s, i + 1, n);
            let mut key = String::new();
            push_range(&mut key, &s, a, b);
            let mut value = String::new();
            push_range(&mut value, &s, c, d);
            assert(s@.subrange(0, i as int) =~= s@.take(i as int));
            assert(s@.subrange(i + 1, s@.len() as int) =~= s@.skip(i + 1));
            Some((key, value))
        },
    }
}

/// Of the config layers, the first that has a value wins: values previewed at runtime,
/// then those given on the command line, then those loaded from disk.
pub fn first_layer<T>(preview: Option<T>, arguments: Option<T>, base: Option<T>) -> (r: Option<T>)
    ensures
        r == (if preview is Some { preview } else if arguments is Some { arguments } else { base }),
{
    match preview {
        Some(v) => Some(v),
        None => match arguments {
            Some(v) => Some(v),
            None => base,
        },
    }
}

/// Hierarchical key-value settings, for options and command line config: values loaded from
/// disk, overridden by those given on the command line, overridden in turn by values
/// previewed at runtime.
#[derive(Debug)]
pub struct Config {
    /// Loaded from and saved to disk.
    pub base: ConfigTable,
    /// Given on the command line.
    pub arguments: ConfigTable,
    /// Set at runtime, to be kept or reverted.
    pub preview: ConfigTable,
}

/// The value a config gives for a dotted key: from the first layer that has one.
pub open spec fn config_value(c: Config, key: Seq<char>) -> Option<ValueView> {
    let p = value_at(c.preview@, key);
    let a = value_at(c.arguments@, key);
    if p is Some { p } else if a is Some { a } else { value_at(c.base@, key) }
}

impl Default for Config {
    fn default() -> (c: Config)
        ensures
            c.base@.len() == 0,
            c.arguments@.len() == 0,
            c.preview@.len() == 0,
    {
        Config { base: ConfigTable::new(), arguments: ConfigTable::new(), preview: ConfigTable::new() }
    }
}

impl Config {
    /// Drops the values previewed at runtime.
    pub fn revert(&mut self)
        ensures
            final(self).preview@.len() == 0,
            final(self).base == old(self).base,
            final(self).arguments == old(self).arguments,
    {
        self.preview = ConfigTable::new();
    }

    /// The value for a dotted key, from the first layer that has one.
    pub fn get_value(&self, key: &str) -> (r: Option<&ConfigValue>)
        ensures
            match r {
                Some(v) => config_value(*self, key@) == Some(v@),
                None => config_value(*self, key@) is None,
            },
    {
        first_layer(get_value(&self.preview, key), get_value(&self.arguments, key), get_value(&self.base, key))
    }

    /// The value for a dotted key if it is a boolean.
    pub fn get_bool(&self, key: &str) -> (r: Option<bool>)
        ensures
            r == (match config_value(*self, key@) {
                Some(ValueView::Boolean(b)) => Some(b),
                _ => None,
            }),
    {
        match self.get_value(key) {
            Some(ConfigValue::Boolean(b)) => Some(*b),
            _ => None,
        }
    }

    /// The value for a dotted key if it is a string.
    pub fn get_string(&self, key: &str) -> (r: Option<&str>)
        ensures
            match r {
                Some(s) => config_value(*self, key@) == Some(ValueView::String(s@)),
                None => !(config_value(*self, key@) matches Some(ValueView::String(_))),
            },
    {
        match self.get_value(key) {
            Some(ConfigValue::String(s)) => Some(s.as_str()),
            _ => None,
        }
    }
}

} // verus!

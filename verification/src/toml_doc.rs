//! TOML documents as the library reads and writes them: a value type of its own,
//! with the `toml` crate doing the parsing and the printing.
use vstd::prelude::*;

use crate::text::{chars_of, str_eq};

verus! {

/// A TOML value. Floats and date-times, which nothing here reads, are kept as `Other`.
#[derive(Debug, PartialEq)]
pub enum TomlValue {
    String(String),
    Integer(i64),
    Boolean(bool),
    Array(Vec<TomlValue>),
    Table(Vec<(String, TomlValue)>),
    Other,
}

/// The content of a TOML value.
pub enum TomlView {
    String(Seq<char>),
    Integer(i64),
    Boolean(bool),
    Array(Seq<TomlView>),
    Table(Seq<(Seq<char>, TomlView)>),
    Other,
}

/// The content of a TOML value.
pub open spec fn toml_view(v: TomlValue) -> TomlView
    decreases v, 1int,
{
    match v {
        TomlValue::String(s) => TomlView::String(s@),
        TomlValue::Integer(i) => TomlView::Integer(i),
        TomlValue::Boolean(b) => TomlView::Boolean(b),
        TomlValue::Array(items) => TomlView::Array(items_view(items@)),
        TomlValue::Table(t) => TomlView::Table(entries_view(t@)),
        TomlValue::Other => TomlView::Other,
    }
}

/// The contents of some TOML values.
pub open spec fn items_view(s: Seq<TomlValue>) -> Seq<TomlView>
    decreases s, 0int,
{
    if s.len() == 0 {
        seq![]
    } else {
        items_view(s.drop_last()).push(toml_view(s.last()))
    }
}

/// The contents of the entries of a TOML table.
pub open spec fn entries_view(t: Seq<(String, TomlValue)>) -> Seq<(Seq<char>, TomlView)>
    decreases t, 0int,
{
    if t.len() == 0 {
        seq![]
    } else {
        entries_view(t.drop_last()).push((t.last().0@, toml_view(t.last().1)))
    }
}

/// The entry for key `k` in a table: the first one with that key.
pub open spec fn table_lookup(t: Seq<(String, TomlValue)>, k: Seq<char>) -> Option<TomlValue>
    decreases t.len(),
{
    if t.len() == 0 {
        None
    } else if t[0].0@ == k {
        Some(t[0].1)
    } else {
        table_lookup(t.drop_first(), k)
    }
}

/// The view of a table, entry by entry.
pub proof fn lemma_entries_view_index(t: Seq<(String, TomlValue)>)
    ensures
        entries_view(t).len() == t.len(),
        forall|i: int|
            0 <= i < t.len() ==> #[trigger] entries_view(t)[i] == (t[i].0@, toml_view(t[i].1)),
    decreases t.len(),
{
    if t.len() > 0 {
        lemma_entries_view_index(t.drop_last());
        assert forall|i: int| 0 <= i < t.len() implies #[trigger] entries_view(t)[i] == (
            t[i].0@,
            toml_view(t[i].1),
        ) by {
            if i < t.len() - 1 {
                assert(t.drop_last()[i] == t[i]);
            }
        }
    }
}

/// The view of some values, one by one.
pub proof fn lemma_items_view_index(s: Seq<TomlValue>)
    ensures
        items_view(s).len() == s.len(),
        forall|i: int| 0 <= i < s.len() ==> #[trigger] items_view(s)[i] == toml_view(s[i]),
    decreases s.len(),
{
    if s.len() > 0 {
        lemma_items_view_index(s.drop_last());
        assert forall|i: int| 0 <= i < s.len() implies #[trigger] items_view(s)[i] == toml_view(s[i]) by {
            if i < s.len() - 1 {
                assert(s.drop_last()[i] == s[i]);
            }
        }
    }
}

/// The lookup finds the first entry with the key.
pub proof fn lemma_table_lookup_at(t: Seq<(String, TomlValue)>, k: Seq<char>, i: int)
    requires
        0 <= i < t.len(),
        t[i].0@ == k,
        forall|j: int| 0 <= j < i ==> (#[trigger] t[j]).0@ != k,
    ensures
        table_lookup(t, k) == Some(t[i].1),
    decreases i,
{
    if i > 0 {
        let r = t.drop_first();
        assert forall|j: int| 0 <= j < i - 1 implies (#[trigger] r[j]).0@ != k by {
            assert(r[j] == t[j + 1]);
        }
        lemma_table_lookup_at(r, k, i - 1);
    }
}

/// The lookup finds nothing where no entry has the key.
pub proof fn lemma_table_lookup_absent(t: Seq<(String, TomlValue)>, k: Seq<char>)
    requires
        forall|j: int| 0 <= j < t.len() ==> (#[trigger] t[j]).0@ != k,
    ensures
        table_lookup(t, k) is None,
    decreases t.len(),
{
    if t.len() > 0 {
        let r = t.drop_first();
        assert forall|j: int| 0 <= j < r.len() implies (#[trigger] r[j]).0@ != k by {
            assert(r[j] == t[j + 1]);
        }
        lemma_table_lookup_absent(r, k);
    }
}

/// The value at key `k` of a table value; nothing for a value that is not a table.
pub open spec fn toml_get(v: TomlValue, k: Seq<char>) -> Option<TomlValue> {
    match v {
        TomlValue::Table(t) => table_lookup(t@, k),
        _ => None,
    }
}

/// The string a value holds.
pub open spec fn as_string(v: TomlValue) -> Option<Seq<char>> {
    match v {
        TomlValue::String(s) => Some(s@),
        _ => None,
    }
}

/// The strings an array of strings holds.
pub open spec fn string_items(items: Seq<TomlValue>) -> Option<Seq<Seq<char>>>
    decreases items.len(),
{
    if items.len() == 0 {
        Some(seq![])
    } else {
        match (string_items(items.drop_last()), items.last()) {
            (Some(ss), TomlValue::String(s)) => Some(ss.push(s@)),
            _ => None,
        }
    }
}

/// The strings a value holds when it is an array of strings.
pub open spec fn as_string_array(v: TomlValue) -> Option<Seq<Seq<char>>> {
    match v {
        TomlValue::Array(items) => string_items(items@),
        _ => None,
    }
}

/// The text of a TOML document read as a table, or the parser's message.
pub uninterp spec fn spec_parse_toml(text: Seq<char>) -> Result<Vec<(String, TomlValue)>, String>;

/// The text `toml::to_string_pretty` makes of a table, or its message.
pub uninterp spec fn spec_toml_pretty(table: Vec<(String, TomlValue)>) -> Result<String, String>;

/// Reads a TOML document as a table with `toml::from_str`, keeping the order of its keys;
/// this names the result, which depends on the text alone.
#[verifier::external_body]
pub fn parse_toml(text: &str) -> (r: Result<Vec<(String, TomlValue)>, String>)
    ensures
        r == spec_parse_toml(text@),
{
    match toml::from_str::<toml::Table>(text) {
        Ok(table) => Ok(table.into_iter().map(|(k, v)| (k, from_toml(v))).collect()),
        Err(e) => Err(e.to_string()),
    }
}

/// Prints a table with `toml::to_string_pretty`; this names the result, which depends
/// on the table alone.
#[verifier::external_body]
pub fn toml_to_string_pretty(table: &Vec<(String, TomlValue)>) -> (r: Result<String, String>)
    ensures
        r == spec_toml_pretty(*table),
{
    let t: toml::Table = table.iter().map(|(k, v)| (k.clone(), to_toml(v))).collect();
    toml::to_string_pretty(&t).map_err(|e| e.to_string())
}

/// The value type of the `toml` crate, carried through unread.
#[verifier::external_type_specification]
#[verifier::external_body]
pub struct ExTomlValue(toml::Value);

/// A `toml::Value` as a value of this library, one variant for one.
#[verifier::external_body]
fn from_toml(v: toml::Value) -> TomlValue {
    match v {
        toml::Value::String(s) => TomlValue::String(s),
        toml::Value::Integer(i) => TomlValue::Integer(i),
        toml::Value::Boolean(b) => TomlValue::Boolean(b),
        toml::Value::Array(a) => TomlValue::Array(a.into_iter().map(from_toml).collect()),
        toml::Value::Table(t) => TomlValue::Table(t.into_iter().map(|(k, v)| (k, from_toml(v))).collect()),
        _ => TomlValue::Other,
    }
}

/// A value of this library as a `toml::Value`, one variant for one; `Other` becomes an
/// empty table.
#[verifier::external_body]
fn to_toml(v: &TomlValue) -> toml::Value {
    match v {
        TomlValue::String(s) => toml::Value::String(s.clone()),
        TomlValue::Integer(i) => toml::Value::Integer(*i),
        TomlValue::Boolean(b) => toml::Value::Boolean(*b),
        TomlValue::Array(a) => toml::Value::Array(a.iter().map(to_toml).collect()),
        TomlValue::Table(t) => toml::Value::Table(t.iter().map(|(k, v)| (k.clone(), to_toml(v))).collect()),
        TomlValue::Other => toml::Value::Table(toml::Table::new()),
    }
}

/// The position of the first entry with key `key`.
pub fn table_find(t: &Vec<(String, TomlValue)>, key: &str) -> (r: Option<usize>)
    ensures
        match r {
            Some(i) => i < t@.len() && t@[i as int].0@ == key@ && table_lookup(t@, key@) == Some(
                t@[i as int].1,
            ) && forall|j: int| 0 <= j < i ==> t@[j].0@ != key@,
            None => table_lookup(t@, key@) is None && forall|j: int|
                0 <= j < t@.len() ==> t@[j].0@ != key@,
        },
{
    let mut i: usize = 0;
    assert(t@.skip(0) == t@);
    while i < t.len()
        invariant
            i <= t.len(),
            table_lookup(t@, key@) == table_lookup(t@.skip(i as int), key@),
            forall|j: int| 0 <= j < i ==> t@[j].0@ != key@,
        decreases t.len() - i,
    {
        assert(t@.skip(i as int).drop_first() == t@.skip(i + 1));
        if str_eq(t[i].0.as_str(), key) {
            return Some(i);
        }
        i = i + 1;
    }
    None
}

/// A table with the entry `(k, v)` put in: in place of the entry with key `k`,
/// or else at the end.
pub open spec fn entry_insert(t: Seq<(Seq<char>, TomlView)>, k: Seq<char>, v: TomlView) -> Seq<
    (Seq<char>, TomlView),
>
    decreases t.len(),
{
    if t.len() == 0 {
        seq![(k, v)]
    } else if t[0].0 == k {
        seq![(k, v)] + t.drop_first()
    } else {
        seq![t[0]] + entry_insert(t.drop_first(), k, v)
    }
}

proof fn lemma_entry_insert_at(t: Seq<(Seq<char>, TomlView)>, k: Seq<char>, v: TomlView, i: int)
    requires
        0 <= i < t.len(),
        t[i].0 == k,
        forall|j: int| 0 <= j < i ==> t[j].0 != k,
    ensures
        entry_insert(t, k, v) == t.update(i, (k, v)),
    decreases t.len(),
{
    if i > 0 {
        lemma_entry_insert_at(t.drop_first(), k, v, i - 1);
        assert(entry_insert(t, k, v) =~= t.update(i, (k, v)));
    } else {
        assert(entry_insert(t, k, v) =~= t.update(i, (k, v)));
    }
}

pub proof fn lemma_entry_insert_new(t: Seq<(Seq<char>, TomlView)>, k: Seq<char>, v: TomlView)
    requires
        forall|j: int| 0 <= j < t.len() ==> t[j].0 != k,
    ensures
        entry_insert(t, k, v) == t.push((k, v)),
    decreases t.len(),
{
    if t.len() > 0 {
        lemma_entry_insert_new(t.drop_first(), k, v);
        assert(entry_insert(t, k, v) =~= t.push((k, v)));
    }
}

/// Puts the entry `(k, v)` in a table: in place of the entry with key `k`, or else at the end.
pub fn table_insert(t: &mut Vec<(String, TomlValue)>, k: String, v: TomlValue)
    ensures
        entries_view(final(t)@) == entry_insert(entries_view(old(t)@), k@, toml_view(v)),
{
    let ghost kv = k@;
    let ghost vv = toml_view(v);
    proof {
        lemma_entries_view_index(t@);
    }
    match table_find(t, k.as_str()) {
        Some(i) => {
            proof {
                lemma_entry_insert_at(entries_view(t@), kv, vv, i as int);
            }
            t.set(i, (k, v));
            proof {
                lemma_entries_view_index(t@);
                assert(entries_view(t@) =~= entries_view(old(t)@).update(i as int, (kv, vv)));
            }
        },
        None => {
            proof {
                lemma_entry_insert_new(entries_view(t@), kv, vv);
            }
            t.push((k, v));
            proof {
                assert(t@.drop_last() == old(t)@);
            }
        },
    }
}

/// The value at key `key` of a table value.
pub fn toml_get_exec<'a>(v: &'a TomlValue, key: &str) -> (r: Option<&'a TomlValue>)
    ensures
        match r {
            Some(x) => toml_get(*v, key@) == Some(*x),
            None => toml_get(*v, key@) is None,
        },
{
    match v {
        TomlValue::Table(t) => match table_find(t, key) {
            Some(i) => Some(&t[i].1),
            None => None,
        },
        _ => None,
    }
}

/// The strings held by an array of strings.
pub fn string_array_exec(v: &TomlValue) -> (r: Option<Vec<String>>)
    ensures
        match r {
            Some(ss) => as_string_array(*v) == Some(crate::text::views(ss@)),
            None => as_string_array(*v) is None,
        },
{
    match v {
        TomlValue::Array(items) => {
            let mut out: Vec<String> = Vec::new();
            let mut i: usize = 0;
            while i < items.len()
                invariant
                    i <= items.len(),
                    *v == TomlValue::Array(*items),
                    string_items(items@.take(i as int)) == Some(crate::text::views(out@)),
                decreases items.len() - i,
            {
                assert(items@.take(i + 1).drop_last() == items@.take(i as int));
                match &items[i] {
                    TomlValue::String(s) => {
                        let c = s.clone();
                        out.push(c);
                        assert(crate::text::views(out@) =~= crate::text::views(
                            out@.drop_last(),
                        ).push(s@));
                    },
                    _ => {
                        proof {
                            assert(items@.take(i + 1).last() == items@[i as int]);
                            assert(string_items(items@.take(i + 1)) is None);
                            lemma_string_items_prefix(items@, i as int + 1);
                            assert(string_items(items@) is None);
                            assert(as_string_array(*v) is None);
                        }
                        return None;
                    },
                }
                i = i + 1;
            }
            assert(items@.take(items.len() as int) == items@);
            Some(out)
        },
        _ => None,
    }
}

proof fn lemma_string_items_prefix(items: Seq<TomlValue>, n: int)
    requires
        0 <= n <= items.len(),
        string_items(items.take(n)) is None,
    ensures
        string_items(items) is None,
    decreases items.len() - n,
{
    if n < items.len() {
        assert(items.take(n + 1).drop_last() == items.take(n));
        lemma_string_items_prefix(items, n + 1);
    } else {
        assert(items.take(n) == items);
    }
}

/// `s` as a TOML string value.
pub fn string_value(s: &str) -> (r: TomlValue)
    ensures
        r matches TomlValue::String(x) && x@ == s@,
{
    TomlValue::String(String::from_str(s))
}

} // verus!

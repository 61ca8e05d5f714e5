//! The document model: values, dictionaries, sections and documents, each
//! with the mathematical value it stands for.

use vstd::prelude::*;
use vstd::string::StringExecFns;
use crate::render::{integer_text, joined, push_integer, push_quoted, quoted};
use crate::sorted::{
    find, has_key, index_of, keys_ascending, lemma_index_of, lex_less, upsert, value_of,
};

verus! {

/// A value of the markup.
#[derive(Debug, PartialEq)]
pub enum Value {
    String(String),
    Integer(i64),
    /// A decimal number, kept as it was written: digits, a point, digits.
    Float(String),
    Boolean(bool),
    Array(Vec<Value>),
    Dictionary(Dictionary),
}

/// A mapping from keys to values with unique keys, kept in ascending order of
/// the keys.
#[derive(Debug, PartialEq)]
pub struct Dictionary {
    entries: Vec<(String, Value)>,
}

/// What a `Value` stands for.
#[verifier::ext_equal]
pub enum ValueView {
    String(Seq<char>),
    Integer(int),
    Float(Seq<char>),
    Boolean(bool),
    Array(Seq<ValueView>),
    Dictionary(Map<Seq<char>, ValueView>),
}

/// What `v` stands for.
pub open spec fn value_view(v: Value) -> ValueView
    decreases v,
{
    match v {
        Value::String(text) => ValueView::String(text@),
        Value::Integer(n) => ValueView::Integer(n as int),
        Value::Float(text) => ValueView::Float(text@),
        Value::Boolean(b) => ValueView::Boolean(b),
        Value::Array(items) => ValueView::Array(values_view(items@)),
        Value::Dictionary(d) => ValueView::Dictionary(dictionary_view(d)),
    }
}

/// What each of `items` stands for, in order.
pub open spec fn values_view(items: Seq<Value>) -> Seq<ValueView>
    decreases items,
{
    Seq::new(
        items.len(),
        |i: int|
            if 0 <= i < items.len() {
                value_view(items[i])
            } else {
                ValueView::Boolean(false)
            },
    )
}

/// The finite map that `d` stands for.
pub closed spec fn dictionary_view(d: Dictionary) -> Map<Seq<char>, ValueView>
    decreases d,
{
    Map::new(
        |key: Seq<char>| has_key(d.entries@, key),
        |key: Seq<char>|
            {
                let i = index_of(d.entries@, key);
                if 0 <= i < d.entries@.len() {
                    value_view(d.entries@[i].1)
                } else {
                    ValueView::Boolean(false)
                }
            },
    )
}

impl View for Value {
    type V = ValueView;

    open spec fn view(&self) -> ValueView {
        value_view(*self)
    }
}

impl View for Dictionary {
    type V = Map<Seq<char>, ValueView>;

    open spec fn view(&self) -> Map<Seq<char>, ValueView> {
        dictionary_view(*self)
    }
}

/// Pushing a value onto a vector pushes what it stands for.
pub proof fn lemma_values_view_push(items: Seq<Value>, v: Value)
    ensures
        values_view(items.push(v)) == values_view(items).push(value_view(v)),
{
    assert(values_view(items.push(v)) =~= values_view(items).push(value_view(v)));
}

impl Dictionary {
    #[verifier::type_invariant]
    spec fn ascending(self) -> bool {
        keys_ascending(self.entries@)
    }

    /// A dictionary without entries.
    pub fn new() -> (d: Dictionary)
        ensures
            d@ == Map::<Seq<char>, ValueView>::empty(),
    {
        let d = Dictionary { entries: Vec::new() };
        assert(d@ =~= Map::<Seq<char>, ValueView>::empty());
        d
    }

    /// Writes `value` under `key`; a value already there is replaced and
    /// returned.
    pub fn insert(&mut self, key: String, value: Value) -> (previous: Option<Value>)
        ensures
            final(self)@ == old(self)@.insert(key@, value@),
            match previous {
                Some(v) => old(self)@.contains_key(key@) && v@ == old(self)@[key@],
                None => !old(self)@.contains_key(key@),
            },
    {
        proof {
            use_type_invariant(&*self);
        }
        let ghost before = self.entries@;
        let ghost key_view = key@;
        let ghost value_model = value@;
        let mut entries: Vec<(String, Value)> = Vec::new();
        std::mem::swap(&mut self.entries, &mut entries);
        let previous = upsert(&mut entries, key, value);
        self.entries = entries;
        proof {
            let after = self.entries@;
            assert forall|k: Seq<char>| has_key(after, k) implies 0 <= index_of(after, k)
                < after.len() by {}
            assert forall|k: Seq<char>| has_key(before, k) implies 0 <= index_of(before, k)
                < before.len() by {}
            assert forall|k: Seq<char>| k != key_view && has_key(before, k) implies value_of(
                after,
                k,
            ) == value_of(before, k) by {}
            assert(dictionary_view(*self) =~= dictionary_view(*old(self)).insert(
                key_view,
                value_model,
            ));
        }
        previous
    }

    /// The value under `key`, if there is one.
    pub fn get(&self, key: &str) -> (r: Option<&Value>)
        ensures
            match r {
                Some(v) => self@.contains_key(key@) && v@ == self@[key@],
                None => !self@.contains_key(key@),
            },
    {
        proof {
            use_type_invariant(self);
        }
        find(&self.entries, key)
    }

    /// The number of entries.
    pub fn len(&self) -> (n: usize)
        ensures
            n == self@.dom().len(),
            self@.dom().finite(),
    {
        proof {
            use_type_invariant(self);
            self.lemma_domain(self.entries@.len() as int);
        }
        self.entries.len()
    }

    /// The keys of the first `n` entries are `n` different keys.
    proof fn lemma_domain(self, n: int)
        requires
            keys_ascending(self.entries@),
            0 <= n <= self.entries@.len(),
        ensures
            Set::new(|key: Seq<char>| has_key(self.entries@.take(n), key)).finite(),
            Set::new(|key: Seq<char>| has_key(self.entries@.take(n), key)).len() == n,
            n == self.entries@.len() ==> self@.dom() == Set::new(
                |key: Seq<char>| has_key(self.entries@.take(n), key),
            ),
        decreases n,
    {
        let entries = self.entries@;
        let here = Set::new(|key: Seq<char>| has_key(entries.take(n), key));
        if n == 0 {
            assert(here =~= Set::<Seq<char>>::empty());
        } else {
            self.lemma_domain(n - 1);
            let before = Set::new(|key: Seq<char>| has_key(entries.take(n - 1), key));
            let last = entries[n - 1].0@;
            assert forall|key: Seq<char>| here.contains(key) <==> before.insert(last).contains(
                key,
            ) by {
                if has_key(entries.take(n), key) {
                    let i = index_of(entries.take(n), key);
                    if i < n - 1 {
                        assert(entries.take(n - 1)[i].0@ == key);
                    }
                }
                if has_key(entries.take(n - 1), key) {
                    let i = index_of(entries.take(n - 1), key);
                    assert(entries.take(n)[i].0@ == key);
                }
                if key == last {
                    assert(entries.take(n)[n - 1].0@ == key);
                }
            }
            assert(here =~= before.insert(last));
            if before.contains(last) {
                let i = index_of(entries.take(n - 1), last);
                assert(entries.take(n - 1)[i].0@ == last);
                lemma_index_of(entries, n - 1);
                lemma_index_of(entries, i);
            }
        }
        if n == entries.len() {
            assert(entries.take(n) == entries);
            assert(self@.dom() =~= here);
        }
    }

    /// The entries in ascending order of their keys.
    pub fn entries(&self) -> (r: &Vec<(String, Value)>)
        ensures
            keys_ascending(r@),
            forall|key: Seq<char>| #[trigger] has_key(r@, key) <==> self@.contains_key(key),
            forall|i: int| 0 <= i < r@.len() ==> self@[r@[i].0@] == (#[trigger] r@[i]).1@,
    {
        proof {
            use_type_invariant(self);
            assert forall|i: int| 0 <= i < self.entries@.len() implies self@[self.entries@[i].0@]
                == (#[trigger] self.entries@[i]).1@ by {
                lemma_index_of(self.entries@, i);
            }
        }
        &self.entries
    }
}

/// How `v` is written where a value stands in the markup: a string as a
/// literal, an array between `[ ` and ` ]`, a dictionary between `{ ` and
/// ` }` with its entries in ascending order of their keys.
pub open spec fn literal_text(v: Value) -> Seq<char>
    decreases v,
{
    match v {
        Value::String(text) => quoted(text@),
        Value::Integer(n) => integer_text(n as int),
        Value::Float(text) => text@,
        Value::Boolean(b) => if b {
            "true"@
        } else {
            "false"@
        },
        Value::Array(items) => "[ "@ + joined(items_text(items@)) + " ]"@,
        Value::Dictionary(d) => "{ "@ + joined(entries_text(d)) + " }"@,
    }
}

/// How each of `items` is written.
pub open spec fn items_text(items: Seq<Value>) -> Seq<Seq<char>>
    decreases items,
{
    Seq::new(
        items.len(),
        |i: int|
            if 0 <= i < items.len() {
                literal_text(items[i])
            } else {
                Seq::empty()
            },
    )
}

/// How each entry of `d` is written, in ascending order of the keys: the
/// key, ` = `, and the value.
pub closed spec fn entries_text(d: Dictionary) -> Seq<Seq<char>>
    decreases d,
{
    Seq::new(
        d.entries@.len(),
        |i: int|
            if 0 <= i < d.entries@.len() {
                d.entries@[i].0@ + " = "@ + literal_text(d.entries@[i].1)
            } else {
                Seq::empty()
            },
    )
}

/// How `v` is shown by itself: a string as its bare text, any other value as
/// it is written in the markup.
pub open spec fn plain_text(v: Value) -> Seq<char> {
    match v {
        Value::String(text) => text@,
        _ => literal_text(v),
    }
}

impl Value {
    /// Appends to `out` this value as it is written in the markup.
    fn write_literal(&self, out: &mut String)
        ensures
            final(out)@ == old(out)@ + literal_text(*self),
        decreases self,
    {
        match self {
            Value::String(text) => {
                push_quoted(out, text.as_str());
            },
            Value::Integer(n) => {
                push_integer(out, *n);
            },
            Value::Float(text) => {
                out.append(text.as_str());
            },
            Value::Boolean(b) => {
                if *b {
                    out.append("true");
                } else {
                    out.append("false");
                }
            },
            Value::Array(items) => {
                out.append("[ ");
                let ghost parts = items_text(items@);
                let ghost head = out@;
                let mut i: usize = 0;
                while i < items.len()
                    invariant
                        i <= items@.len(),
                        parts == items_text(items@),
                        *self == Value::Array(*items),
                        out@ == head + joined(parts.take(i as int)),
                    decreases items@.len() - i,
                {
                    if i > 0 {
                        out.append(", ");
                    }
                    proof {
                        assert(*self is Array && self->Array_0 == *items);
                        assert(decreases_to!(*self => self->Array_0));
                        assert(decreases_to!(*items => items@[i as int]));
                    }
                    items[i].write_literal(out);
                    proof {
                        assert(parts.take(i + 1).drop_last() == parts.take(i as int));
                        assert(parts.take(i + 1).last() == literal_text(items@[i as int]));
                        if i == 0 {
                            assert(joined(parts.take(1)) == parts.take(1)[0]);
                            assert(joined(parts.take(0)) == Seq::<char>::empty());
                        }
                    }
                    i = i + 1;
                }
                proof {
                    assert(parts.take(i as int) == parts);
                }
                out.append(" ]");
            },
            Value::Dictionary(d) => {
                proof {
                    use_type_invariant(d);
                }
                out.append("{ ");
                let ghost parts = entries_text(*d);
                let ghost head = out@;
                let mut i: usize = 0;
                while i < d.entries.len()
                    invariant
                        i <= d.entries@.len(),
                        parts == entries_text(*d),
                        *self == Value::Dictionary(*d),
                        out@ == head + joined(parts.take(i as int)),
                    decreases d.entries@.len() - i,
                {
                    if i > 0 {
                        out.append(", ");
                    }
                    out.append(d.entries[i].0.as_str());
                    out.append(" = ");
                    proof {
                        assert(*self is Dictionary && self->Dictionary_0 == *d);
                        assert(decreases_to!(*self => self->Dictionary_0));
                        assert(decreases_to!(*d => d.entries));
                        assert(decreases_to!(d.entries => d.entries@[i as int]));
                        assert(decreases_to!(d.entries@[i as int] => d.entries@[i as int].1));
                    }
                    d.entries[i].1.write_literal(out);
                    proof {
                        assert(parts.take(i + 1).drop_last() == parts.take(i as int));
                        assert(parts.take(i + 1).last() == d.entries@[i as int].0@ + " = "@
                            + literal_text(d.entries@[i as int].1));
                        if i == 0 {
                            assert(joined(parts.take(1)) == parts.take(1)[0]);
                            assert(joined(parts.take(0)) == Seq::<char>::empty());
                        }
                    }
                    i = i + 1;
                }
                proof {
                    assert(parts.take(i as int) == parts);
                }
                out.append(" }");
            },
        }
    }

    /// This value as it is written in the markup.
    pub fn to_literal(&self) -> (text: String)
        ensures
            text@ == literal_text(*self),
    {
        let mut text = String::new();
        self.write_literal(&mut text);
        text
    }

    /// This value as it is shown by itself: a string as its bare text, any
    /// other value as it is written in the markup.
    pub fn to_string(&self) -> (text: String)
        ensures
            text@ == plain_text(*self),
    {
        match self {
            Value::String(text) => text.clone(),
            _ => self.to_literal(),
        }
    }
}

impl Clone for Value {
    fn clone(&self) -> (copy: Value)
        ensures
            copy@ == self@,
        decreases self,
    {
        match self {
            Value::String(text) => Value::String(text.clone()),
            Value::Integer(n) => Value::Integer(*n),
            Value::Float(text) => Value::Float(text.clone()),
            Value::Boolean(b) => Value::Boolean(*b),
            Value::Array(items) => {
                let mut copies: Vec<Value> = Vec::with_capacity(items.len());
                let mut i: usize = 0;
                while i < items.len()
                    invariant
                        i <= items@.len(),
                        *self is Array && self->Array_0 == *items,
                        copies@.len() == i,
                        forall|k: int| 0 <= k < i ==> (#[trigger] copies@[k])@ == items@[k]@,
                    decreases items@.len() - i,
                {
                    proof {
                        assert(decreases_to!(*self => self->Array_0));
                        assert(decreases_to!(*items => items@[i as int]));
                    }
                    copies.push(items[i].clone());
                    i = i + 1;
                }
                assert(values_view(copies@) =~= values_view(items@));
                Value::Array(copies)
            },
            Value::Dictionary(d) => Value::Dictionary(d.clone()),
        }
    }
}

impl Clone for Dictionary {
    fn clone(&self) -> (copy: Dictionary)
        ensures
            copy@ == self@,
        decreases self,
    {
        proof {
            use_type_invariant(self);
        }
        let mut entries: Vec<(String, Value)> = Vec::with_capacity(self.entries.len());
        let mut i: usize = 0;
        while i < self.entries.len()
            invariant
                i <= self.entries@.len(),
                entries@.len() == i,
                forall|k: int|
                    0 <= k < i ==> (#[trigger] entries@[k]).0@ == self.entries@[k].0@
                        && entries@[k].1@ == self.entries@[k].1@,
            decreases self.entries@.len() - i,
        {
            proof {
                assert(decreases_to!(*self => self.entries));
                assert(decreases_to!(self.entries => self.entries@[i as int]));
                assert(decreases_to!(self.entries@[i as int] => self.entries@[i as int].1));
            }
            entries.push((self.entries[i].0.clone(), self.entries[i].1.clone()));
            i = i + 1;
        }
        proof {
            assert forall|a: int, b: int| 0 <= a < b < entries@.len() implies lex_less(
                #[trigger] entries@[a].0@,
                #[trigger] entries@[b].0@,
            ) by {
                assert(lex_less(self.entries@[a].0@, self.entries@[b].0@));
            }
        }
        let copy = Dictionary { entries };
        proof {
            assert forall|key: Seq<char>| has_key(copy.entries@, key) <==> has_key(
                self.entries@,
                key,
            ) by {
                if has_key(copy.entries@, key) {
                    let j = index_of(copy.entries@, key);
                    assert(self.entries@[j].0@ == key);
                }
                if has_key(self.entries@, key) {
                    let j = index_of(self.entries@, key);
                    assert(copy.entries@[j].0@ == key);
                }
            }
            assert forall|key: Seq<char>| has_key(self.entries@, key) implies index_of(
                copy.entries@,
                key,
            ) == index_of(self.entries@, key) by {
                let j = index_of(self.entries@, key);
                assert(copy.entries@[j].0@ == key);
                lemma_index_of(copy.entries@, j);
            }
            assert(copy@ =~= self@);
        }
        copy
    }
}

} // verus!

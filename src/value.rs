use vstd::prelude::*;

verus! {

/// A parsed value. A float keeps its decimal text (digits with one point),
/// which denotes the number exactly. A table lists each key once.
#[derive(Debug, PartialEq)]
pub enum Value {
    String(String),
    Int(i32),
    Float(String),
    Bool(bool),
    Table(Vec<(String, Value)>),
    Array(Vec<Value>),
    Null,
}

/// The mathematical value of a `Value`.
pub enum Val {
    Str(Seq<char>),
    Int(int),
    Float(Seq<char>),
    Bool(bool),
    Table(Seq<(Seq<char>, Val)>),
    Array(Seq<Val>),
    Null,
}

pub open spec fn value_view(v: Value) -> Val
    decreases v,
{
    match v {
        Value::String(s) => Val::Str(s@),
        Value::Int(i) => Val::Int(i as int),
        Value::Float(s) => Val::Float(s@),
        Value::Bool(b) => Val::Bool(b),
        Value::Null => Val::Null,
        Value::Array(items) => Val::Array(
            Seq::new(
                items@.len(),
                |i: int|
                    if 0 <= i < items@.len() {
                        value_view(items@[i])
                    } else {
                        Val::Null
                    },
            ),
        ),
        Value::Table(es) => Val::Table(
            Seq::new(
                es@.len(),
                |i: int|
                    if 0 <= i < es@.len() {
                        (es@[i].0@, value_view(es@[i].1))
                    } else {
                        (Seq::empty(), Val::Null)
                    },
            ),
        ),
    }
}

impl View for Value {
    type V = Val;

    open spec fn view(&self) -> Val {
        value_view(*self)
    }
}

/// The views of a sequence of values.
pub open spec fn values_view(s: Seq<Value>) -> Seq<Val> {
    Seq::new(s.len(), |i: int| value_view(s[i]))
}

/// The views of the entries of a table.
pub open spec fn entries_view(s: Seq<(String, Value)>) -> Seq<(Seq<char>, Val)> {
    Seq::new(s.len(), |i: int| (s[i].0@, value_view(s[i].1)))
}

pub proof fn lemma_array_view(v: Vec<Value>)
    ensures
        value_view(Value::Array(v)) == Val::Array(values_view(v@)),
{
    let a = value_view(Value::Array(v))->Array_0;
    assert(a =~= values_view(v@));
}

pub proof fn lemma_table_view(v: Vec<(String, Value)>)
    ensures
        value_view(Value::Table(v)) == Val::Table(entries_view(v@)),
{
    let a = value_view(Value::Table(v))->Table_0;
    assert(a =~= entries_view(v@));
}

/// The offset of the last entry of `t` under key `k`, if any.
pub open spec fn key_index(t: Seq<(Seq<char>, Val)>, k: Seq<char>) -> Option<int>
    decreases t.len(),
{
    if t.len() == 0 {
        None
    } else if t.last().0 == k {
        Some(t.len() - 1)
    } else {
        key_index(t.drop_last(), k)
    }
}

/// The value of `t` under key `k`, if any.
pub open spec fn assoc_get(t: Seq<(Seq<char>, Val)>, k: Seq<char>) -> Option<Val> {
    match key_index(t, k) {
        Some(i) => Some(t[i].1),
        None => None,
    }
}

/// `t` with `v` under key `k`: a value already there is replaced in place,
/// else the entry is added at the end.
pub open spec fn assoc_insert(t: Seq<(Seq<char>, Val)>, k: Seq<char>, v: Val) -> Seq<(Seq<char>, Val)> {
    match key_index(t, k) {
        Some(i) => t.update(i, (k, v)),
        None => t.push((k, v)),
    }
}

/// No key occurs twice.
pub open spec fn keys_unique(t: Seq<(Seq<char>, Val)>) -> bool {
    forall|i: int, j: int| 0 <= i < j < t.len() ==> t[i].0 != t[j].0
}

pub proof fn lemma_key_index(t: Seq<(Seq<char>, Val)>, k: Seq<char>)
    ensures
        key_index(t, k) matches Some(i) ==> 0 <= i < t.len() && t[i].0 == k,
        key_index(t, k) is None ==> forall|j: int| 0 <= j < t.len() ==> t[j].0 != k,
    decreases t.len(),
{
    if t.len() > 0 && t.last().0 != k {
        lemma_key_index(t.drop_last(), k);
        assert forall|j: int| 0 <= j < t.len() - 1 implies t[j] == t.drop_last()[j] by {}
    }
}

/// Inserting keeps each key once.
pub proof fn lemma_insert_keeps_keys_unique(t: Seq<(Seq<char>, Val)>, k: Seq<char>, v: Val)
    requires
        keys_unique(t),
    ensures
        keys_unique(assoc_insert(t, k, v)),
        assoc_get(assoc_insert(t, k, v), k) == Some(v),
{
    lemma_key_index(t, k);
    let r = assoc_insert(t, k, v);
    match key_index(t, k) {
        Some(i) => {
            assert forall|a: int| 0 <= a < r.len() implies r[a].0 == t[a].0 by {}
            lemma_key_index(r, k);
        },
        None => {
            assert(r.drop_last() =~= t);
        },
    }
}

impl Value {
    /// A copy of the value.
    pub fn duplicate(&self) -> (r: Value)
        ensures
            r@ == self@,
        decreases self,
    {
        broadcast use vstd::std_specs::vec::group_vec_axioms;
        match self {
            Value::String(s) => Value::String(s.clone()),
            Value::Int(i) => Value::Int(*i),
            Value::Float(s) => Value::Float(s.clone()),
            Value::Bool(b) => Value::Bool(*b),
            Value::Null => Value::Null,
            Value::Array(items) => {
                let mut out: Vec<Value> = Vec::new();
                let mut i: usize = 0;
                while i < items.len()
                    invariant
                        *self == Value::Array(*items),
                        i <= items@.len(),
                        values_view(out@) == values_view(items@).subrange(0, i as int),
                    decreases items@.len() - i,
                {
                    proof {
                        assert(decreases_to!(*self => (*self)->Array_0));
                        assert(decreases_to!(*items => items[i as int]));
                    }
                    let x = items[i].duplicate();
                    let ghost before = out@;
                    out.push(x);
                    assert(values_view(out@) =~= values_view(items@).subrange(0, i + 1)) by {
                        assert(out@ == before.push(x));
                        assert(values_view(before).len() == i);
                        assert(before.len() == i);
                        assert forall|j: int| 0 <= j < i implies out@[j] == before[j] by {}
                    }
                    i += 1;
                }
                proof {
                    lemma_array_view(out);
                    lemma_array_view(*items);
                    assert(values_view(items@).subrange(0, items@.len() as int) =~= values_view(items@));
                }
                Value::Array(out)
            },
            Value::Table(es) => {
                let mut out: Vec<(String, Value)> = Vec::new();
                let mut i: usize = 0;
                while i < es.len()
                    invariant
                        *self == Value::Table(*es),
                        i <= es@.len(),
                        entries_view(out@) == entries_view(es@).subrange(0, i as int),
                    decreases es@.len() - i,
                {
                    proof {
                        assert(decreases_to!(*self => (*self)->Table_0));
                        assert(decreases_to!(*es => es[i as int]));
                        assert(decreases_to!(es[i as int] => es[i as int].1));
                    }
                    let x = (es[i].0.clone(), es[i].1.duplicate());
                    let ghost before = out@;
                    out.push(x);
                    assert(entries_view(out@) =~= entries_view(es@).subrange(0, i + 1)) by {
                        assert(out@ == before.push(x));
                        assert(entries_view(before).len() == i);
                        assert(before.len() == i);
                        assert forall|j: int| 0 <= j < i implies out@[j] == before[j] by {}
                    }
                    i += 1;
                }
                proof {
                    lemma_table_view(out);
                    lemma_table_view(*es);
                    assert(entries_view(es@).subrange(0, es@.len() as int) =~= entries_view(es@));
                }
                Value::Table(out)
            },
        }
    }
}

/// Where the entry under `k` stands in `t`, if there is one.
pub fn find_key(t: &Vec<(String, Value)>, k: &String) -> (r: Option<usize>)
    ensures
        match r {
            Some(i) => key_index(entries_view(t@), k@) == Some(i as int),
            None => key_index(entries_view(t@), k@) is None,
        },
{
    let ghost ev = entries_view(t@);
    let mut i: usize = t.len();
    assert(ev.subrange(0, i as int) =~= ev);
    while i > 0
        invariant
            i <= t@.len(),
            ev == entries_view(t@),
            key_index(ev, k@) == key_index(ev.subrange(0, i as int), k@),
        decreases i,
    {
        assert(ev.subrange(0, i as int).drop_last() =~= ev.subrange(0, i - 1));
        if t[i - 1].0 == *k {
            assert(ev.subrange(0, i as int).last().0 == k@);
            return Some(i - 1);
        }
        i -= 1;
    }
    None
}

/// The value in `t` under key `k`, if any.
pub fn table_get<'a>(t: &'a Vec<(String, Value)>, k: &String) -> (r: Option<&'a Value>)
    ensures
        match r {
            Some(v) => assoc_get(entries_view(t@), k@) == Some(v@),
            None => assoc_get(entries_view(t@), k@) is None,
        },
{
    proof {
        lemma_key_index(entries_view(t@), k@);
    }
    match find_key(t, k) {
        Some(i) => Some(&t[i].1),
        None => None,
    }
}

/// Puts `v` under key `k`, replacing what was there.
pub fn table_insert(t: &mut Vec<(String, Value)>, k: String, v: Value)
    ensures
        entries_view(final(t)@) == assoc_insert(entries_view(old(t)@), k@, v@),
{
    proof {
        lemma_key_index(entries_view(t@), k@);
    }
    match find_key(t, &k) {
        Some(i) => {
            t.set(i, (k, v));
            assert(entries_view(t@) =~= assoc_insert(entries_view(old(t)@), k@, v@));
        },
        None => {
            t.push((k, v));
            assert(entries_view(t@) =~= assoc_insert(entries_view(old(t)@), k@, v@));
        },
    }
}

} // verus!

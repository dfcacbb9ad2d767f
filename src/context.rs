//! The value tree handed to the renderer, and the context at its root.
use vstd::prelude::*;

use crate::path::{path_segments, split_path, texts_of, lemma_segments_nonempty};

verus! {

/// A value of the data tree.
///
/// Reading a value of the wrong kind is the same as reading a missing one:
/// `get_bool` gives `false` and the other readers give `None`.
#[derive(Debug)]
pub enum Value {
    Bool(bool),
    String(String),
    List(Vec<Value>),
    Object(Object),
    /// An explicit "no value", stored like any other value.
    Absent,
}

/// A mapping from names to values, each name present at most once.
#[derive(Debug)]
pub struct Object {
    entries: Vec<(String, Value)>,
}

/// The value stored under `key` among `entries`: that of the first entry with that key.
pub open spec fn entry_lookup(entries: Seq<(String, Value)>, key: Seq<char>) -> Option<Value>
    decreases entries.len(),
{
    if entries.len() == 0 {
        None
    } else if entries[0].0@ == key {
        Some(entries[0].1)
    } else {
        entry_lookup(entries.drop_first(), key)
    }
}

/// No two entries share a key.
pub open spec fn keys_unique(entries: Seq<(String, Value)>) -> bool {
    forall|i: int, j: int|
        0 <= i < j < entries.len() ==> #[trigger] entries[i].0@ != #[trigger] entries[j].0@
}

/// `entry_lookup` finds nothing exactly when no entry has the key.
pub proof fn lemma_lookup_none(entries: Seq<(String, Value)>, key: Seq<char>)
    ensures
        entry_lookup(entries, key) is None <==> forall|i: int|
            0 <= i < entries.len() ==> #[trigger] entries[i].0@ != key,
    decreases entries.len(),
{
    if entries.len() > 0 {
        lemma_lookup_none(entries.drop_first(), key);
        if entries[0].0@ != key {
            assert forall|i: int| 1 <= i < entries.len() implies #[trigger] entries[i].0@ == entries.drop_first()[i - 1].0@ by {}
        }
    }
}

/// With unique keys, the entry that carries a key is the one `entry_lookup` finds.
pub proof fn lemma_lookup_at(entries: Seq<(String, Value)>, i: int)
    requires
        keys_unique(entries),
        0 <= i < entries.len(),
    ensures
        entry_lookup(entries, entries[i].0@) == Some(entries[i].1),
    decreases entries.len(),
{
    if i > 0 {
        let rest = entries.drop_first();
        assert(rest[i - 1] == entries[i]);
        assert(keys_unique(rest)) by {
            assert forall|a: int, b: int| 0 <= a < b < rest.len() implies #[trigger] rest[a].0@ != #[trigger] rest[b].0@ by {
                assert(rest[a] == entries[a + 1] && rest[b] == entries[b + 1]);
            }
        }
        assert(entries[0].0@ != entries[i].0@);
        lemma_lookup_at(rest, i - 1);
    }
}

impl Object {
    #[verifier::type_invariant]
    spec fn wf(&self) -> bool {
        keys_unique(self.entries@)
    }
}

/// What a value stands for: the same tree, with texts as sequences of
/// characters and objects as maps.
pub enum ValueView {
    Bool(bool),
    Text(Seq<char>),
    List(Seq<ValueView>),
    Object(Map<Seq<char>, ValueView>),
    Absent,
}

/// What `v` stands for.
pub closed spec fn value_view(v: Value) -> ValueView
    decreases v,
{
    match v {
        Value::Bool(b) => ValueView::Bool(b),
        Value::String(s) => ValueView::Text(s@),
        Value::List(l) => {
            proof {
                assert(decreases_to!(v => v->List_0));
                assert(decreases_to!(v->List_0 => v->List_0@));
            }
            ValueView::List(views_of(l@))
        },
        Value::Object(o) => {
            proof {
                assert(decreases_to!(v => v->Object_0));
                assert(decreases_to!(v->Object_0 => v->Object_0.entries));
                assert(decreases_to!(v->Object_0.entries => v->Object_0.entries@));
            }
            ValueView::Object(entries_view(o.entries@))
        },
        Value::Absent => ValueView::Absent,
    }
}

/// What each element of `l` stands for, in order.
pub closed spec fn views_of(l: Seq<Value>) -> Seq<ValueView>
    decreases l,
{
    if l.len() == 0 {
        Seq::empty()
    } else {
        proof {
            assert(decreases_to!(l => l[0]));
            assert(decreases_to!(l => l.subrange(1, l.len() as int)));
        }
        seq![value_view(l[0])] + views_of(l.subrange(1, l.len() as int))
    }
}

/// The map from each key of `entries` to what its first value stands for.
pub closed spec fn entries_view(entries: Seq<(String, Value)>) -> Map<Seq<char>, ValueView>
    decreases entries,
{
    if entries.len() == 0 {
        Map::empty()
    } else {
        proof {
            assert(decreases_to!(entries => entries[0]));
            assert(decreases_to!(entries[0] => entries[0].1));
            assert(decreases_to!(entries => entries.subrange(1, entries.len() as int)));
        }
        entries_view(entries.subrange(1, entries.len() as int)).insert(
            entries[0].0@,
            value_view(entries[0].1),
        )
    }
}

impl View for Value {
    type V = ValueView;

    open spec fn view(&self) -> ValueView {
        value_view(*self)
    }
}

impl View for Object {
    type V = Map<Seq<char>, ValueView>;

    closed spec fn view(&self) -> Map<Seq<char>, ValueView> {
        entries_view(self.entries@)
    }
}

/// `views_of` keeps the length, and each element stands for its value.
pub proof fn lemma_views_of(l: Seq<Value>)
    ensures
        views_of(l).len() == l.len(),
        forall|i: int| 0 <= i < l.len() ==> #[trigger] views_of(l)[i] == l[i]@,
    decreases l.len(),
{
    if l.len() > 0 {
        let rest = l.subrange(1, l.len() as int);
        lemma_views_of(rest);
        assert forall|i: int| 0 <= i < l.len() implies #[trigger] views_of(l)[i] == l[i]@ by {
            if i > 0 {
                assert(rest[i - 1] == l[i]);
            }
        }
    }
}

/// Two lists whose elements stand for the same values stand for the same list.
proof fn lemma_views_of_alike(a: Seq<Value>, b: Seq<Value>)
    requires
        a.len() == b.len(),
        forall|i: int| 0 <= i < a.len() ==> #[trigger] a[i]@ == b[i]@,
    ensures
        views_of(a) == views_of(b),
{
    lemma_views_of(a);
    lemma_views_of(b);
    assert(views_of(a) =~= views_of(b));
}

/// `entries_view` has a key exactly where `entry_lookup` finds one, with what that value stands for.
proof fn lemma_entries_view(entries: Seq<(String, Value)>, key: Seq<char>)
    ensures
        entries_view(entries).contains_key(key) == entry_lookup(entries, key) is Some,
        entry_lookup(entries, key) is Some ==> entries_view(entries)[key] == entry_lookup(
            entries,
            key,
        )->0@,
    decreases entries.len(),
{
    if entries.len() > 0 {
        let rest = entries.subrange(1, entries.len() as int);
        assert(rest =~= entries.drop_first());
        lemma_entries_view(rest, key);
    }
}

/// Entries whose lookups differ only at `key` give views that differ only at `key`.
proof fn lemma_entries_view_update(
    before: Seq<(String, Value)>,
    after: Seq<(String, Value)>,
    key: Seq<char>,
)
    requires
        forall|k: Seq<char>| k != key ==> entry_lookup(after, k) == entry_lookup(before, k),
    ensures
        entry_lookup(after, key) matches Some(v) ==> entries_view(after) == entries_view(
            before,
        ).insert(key, v@),
        entry_lookup(after, key) is None ==> entries_view(after) == entries_view(before).remove(
            key,
        ),
{
    assert forall|k: Seq<char>| true implies {
        &&& #[trigger] entries_view(after).contains_key(k) == entry_lookup(after, k) is Some
        &&& entries_view(before).contains_key(k) == entry_lookup(before, k) is Some
        &&& entry_lookup(after, k) is Some ==> entries_view(after)[k] == entry_lookup(
            after,
            k,
        )->0@
        &&& entry_lookup(before, k) is Some ==> entries_view(before)[k] == entry_lookup(
            before,
            k,
        )->0@
    } by {
        lemma_entries_view(after, k);
        lemma_entries_view(before, k);
    }
    if let Some(v) = entry_lookup(after, key) {
        assert(entries_view(after) =~= entries_view(before).insert(key, v@));
    } else {
        assert(entries_view(after) =~= entries_view(before).remove(key));
    }
}

/// Entries with the same keys, in order, whose values stand for the same values, have the same view.
proof fn lemma_entries_view_alike(a: Seq<(String, Value)>, b: Seq<(String, Value)>)
    requires
        a.len() == b.len(),
        forall|i: int| 0 <= i < a.len() ==> #[trigger] a[i].0@ == b[i].0@ && a[i].1@ == b[i].1@,
    ensures
        entries_view(a) == entries_view(b),
    decreases a.len(),
{
    if a.len() > 0 {
        let ra = a.subrange(1, a.len() as int);
        let rb = b.subrange(1, b.len() as int);
        assert forall|i: int| 0 <= i < ra.len() implies #[trigger] ra[i].0@ == rb[i].0@ && ra[i].1@
            == rb[i].1@ by {
            assert(ra[i] == a[i + 1] && rb[i] == b[i + 1]);
        }
        lemma_entries_view_alike(ra, rb);
        assert(a[0].0@ == b[0].0@ && a[0].1@ == b[0].1@);
    }
}

/// What the value behind `r` stands for, if there is one.
pub open spec fn view_of_ref(r: Option<&Value>) -> Option<ValueView> {
    match r {
        Some(v) => Some(v@),
        None => None,
    }
}

/// What the value in `r` stands for, if there is one.
pub open spec fn view_of(r: Option<Value>) -> Option<ValueView> {
    match r {
        Some(v) => Some(v@),
        None => None,
    }
}

/// The value stored under `key`, if any.
pub open spec fn map_get(m: Map<Seq<char>, ValueView>, key: Seq<char>) -> Option<ValueView> {
    if m.contains_key(key) {
        Some(m[key])
    } else {
        None
    }
}

impl Object {
    /// An object with no entries.
    pub fn new() -> (r: Object)
        ensures
            r@ == Map::<Seq<char>, ValueView>::empty(),
    {
        let r = Object { entries: Vec::new() };
        assert(r@ =~= Map::<Seq<char>, ValueView>::empty());
        r
    }

    /// Index of the entry with key `key`, if there is one.
    fn find(&self, key: &String) -> (r: Option<usize>)
        ensures
            match r {
                Some(i) => i < self.entries@.len() && self.entries@[i as int].0@ == key@,
                None => entry_lookup(self.entries@, key@) is None,
            },
    {
        let mut i: usize = 0;
        while i < self.entries.len()
            invariant
                i <= self.entries@.len(),
                forall|k: int| 0 <= k < i ==> #[trigger] self.entries@[k].0@ != key@,
            decreases self.entries.len() - i,
        {
            if self.entries[i].0 == *key {
                return Some(i);
            }
            i += 1;
        }
        proof {
            lemma_lookup_none(self.entries@, key@);
        }
        None
    }

    /// The value stored under `key`, if any.
    pub fn get(&self, key: &str) -> (r: Option<&Value>)
        ensures
            view_of_ref(r) == map_get(self@, key@),
    {
        proof {
            use_type_invariant(self);
        }
        let k = key.to_owned();
        proof {
            lemma_entries_view(self.entries@, key@);
        }
        match self.find(&k) {
            Some(i) => {
                proof {
                    lemma_lookup_at(self.entries@, i as int);
                }
                Some(&self.entries[i].1)
            },
            None => None,
        }
    }

    /// Stores `value` under `key`, replacing and returning what was there.
    pub fn insert(&mut self, key: String, value: Value) -> (r: Option<Value>)
        ensures
            final(self)@ == old(self)@.insert(key@, value@),
            view_of(r) == map_get(old(self)@, key@),
    {
        proof {
            use_type_invariant(&*self);
        }
        let ghost old_entries = self.entries@;
        proof {
            lemma_entries_view(old_entries, key@);
        }
        match self.find(&key) {
            Some(i) => {
                proof {
                    lemma_lookup_at(old_entries, i as int);
                }
                let mut es: Vec<(String, Value)> = Vec::new();
                std::mem::swap(&mut es, &mut self.entries);
                let (_, previous) = es.remove(i);
                es.insert(i, (key, value));
                proof {
                    assert(es@ =~= old_entries.update(i as int, (key, value)));
                    assert(keys_unique(es@));
                }
                self.entries = es;
                proof {
                    let es = self.entries@;
                    assert(es =~= old_entries.update(i as int, (key, value)));
                    assert(keys_unique(es));
                    lemma_lookup_at(es, i as int);
                    assert forall|k: Seq<char>| k != key@ implies entry_lookup(es, k)
                        == entry_lookup(old_entries, k) by {
                        lemma_lookup_none(es, k);
                        lemma_lookup_none(old_entries, k);
                        if entry_lookup(old_entries, k) is Some {
                            let j = choose|j: int| 0 <= j < old_entries.len() && old_entries[j].0@ == k;
                            lemma_lookup_at(old_entries, j);
                            lemma_lookup_at(es, j);
                        }
                    }
                    lemma_entries_view_update(old_entries, es, key@);
                }
                Some(previous)
            },
            None => {
                let ghost k0 = key@;
                proof {
                    lemma_lookup_none(old_entries, k0);
                }
                let mut es: Vec<(String, Value)> = Vec::new();
                std::mem::swap(&mut es, &mut self.entries);
                es.push((key, value));
                proof {
                    assert(keys_unique(es@));
                }
                self.entries = es;
                proof {
                    let es = self.entries@;
                    lemma_lookup_none(old_entries, k0);
                    assert(keys_unique(es));
                    lemma_lookup_at(es, old_entries.len() as int);
                    assert forall|k: Seq<char>| k != k0 implies entry_lookup(es, k)
                        == entry_lookup(old_entries, k) by {
                        lemma_lookup_none(es, k);
                        lemma_lookup_none(old_entries, k);
                        if entry_lookup(old_entries, k) is Some {
                            let j = choose|j: int| 0 <= j < old_entries.len() && old_entries[j].0@ == k;
                            lemma_lookup_at(old_entries, j);
                            lemma_lookup_at(es, j);
                        } else {
                            assert(es[old_entries.len() as int].0@ == k0);
                        }
                    }
                    lemma_entries_view_update(old_entries, es, k0);
                }
                None
            },
        }
    }

    /// Removes the entry under `key` and returns its value, if there was one.
    pub fn remove(&mut self, key: &str) -> (r: Option<Value>)
        ensures
            final(self)@ == old(self)@.remove(key@),
            view_of(r) == map_get(old(self)@, key@),
    {
        proof {
            use_type_invariant(&*self);
        }
        let ghost old_entries = self.entries@;
        proof {
            lemma_entries_view(old_entries, key@);
        }
        let k = key.to_owned();
        match self.find(&k) {
            Some(i) => {
                proof {
                    lemma_lookup_at(old_entries, i as int);
                }
                let mut v: Vec<(String, Value)> = Vec::new();
                std::mem::swap(&mut v, &mut self.entries);
                let (_, previous) = v.remove(i);
                proof {
                    let es = v@;
                    assert(es =~= old_entries.remove(i as int));
                    assert forall|a: int, b: int| 0 <= a < b < es.len() implies #[trigger] es[a].0@
                        != #[trigger] es[b].0@ by {
                        let a0 = if a < i { a } else { a + 1 };
                        let b0 = if b < i { b } else { b + 1 };
                        assert(es[a] == old_entries[a0] && es[b] == old_entries[b0]);
                    }
                }
                self.entries = v;
                proof {
                    let es = self.entries@;
                    assert forall|kk: Seq<char>| entry_lookup(es, kk) == if kk == key@ {
                        None
                    } else {
                        entry_lookup(old_entries, kk)
                    } by {
                        lemma_lookup_none(es, kk);
                        lemma_lookup_none(old_entries, kk);
                        if kk == key@ {
                            assert forall|a: int| 0 <= a < es.len() implies #[trigger] es[a].0@ != kk by {
                                let a0 = if a < i { a } else { a + 1 };
                                assert(es[a] == old_entries[a0]);
                            }
                        } else if entry_lookup(old_entries, kk) is Some {
                            let j = choose|j: int| 0 <= j < old_entries.len() && old_entries[j].0@ == kk;
                            lemma_lookup_at(old_entries, j);
                            let j1 = if j < i { j } else { j - 1 };
                            assert(es[j1] == old_entries[j]);
                            lemma_lookup_at(es, j1);
                        } else {
                            assert forall|a: int| 0 <= a < es.len() implies #[trigger] es[a].0@ != kk by {
                                let a0 = if a < i { a } else { a + 1 };
                                assert(es[a] == old_entries[a0]);
                            }
                        }
                    }
                    lemma_entries_view_update(old_entries, es, key@);
                }
                Some(previous)
            },
            None => {
                proof {
                    assert(self@ =~= old(self)@.remove(key@));
                }
                None
            },
        }
    }
}

impl Value {
    /// A copy of this value that shares nothing with it.
    fn deep_copy(&self) -> (r: Value)
        ensures
            r@ == self@,
        decreases self, 1int,
    {
        match self {
            Value::Bool(b) => Value::Bool(*b),
            Value::String(s) => Value::String(s.clone()),
            Value::List(l) => {
                let mut v: Vec<Value> = Vec::new();
                let mut i: usize = 0;
                while i < l.len()
                    invariant
                        i <= l@.len(),
                        *self == Value::List(*l),
                        v@.len() == i,
                        forall|k: int| 0 <= k < i ==> #[trigger] v@[k]@ == l@[k]@,
                    decreases l.len() - i,
                {
                    proof {
                        assert(decreases_to!(*self => (*self)->List_0));
                        assert(decreases_to!(*l => l@));
                        assert(decreases_to!(l@ => l@[i as int]));
                    }
                    v.push(l[i].deep_copy());
                    i += 1;
                }
                proof {
                    lemma_views_of_alike(v@, l@);
                }
                Value::List(v)
            },
            Value::Object(o) => {
                proof {
                    assert(decreases_to!(*self => (*self)->Object_0));
                }
                Value::Object(o.deep_copy())
            },
            Value::Absent => Value::Absent,
        }
    }
}

impl Object {
    /// A copy of this object that shares nothing with it.
    fn deep_copy(&self) -> (r: Object)
        ensures
            r@ == self@,
        decreases self, 0int,
    {
        proof {
            use_type_invariant(self);
        }
        let mut entries: Vec<(String, Value)> = Vec::new();
        let mut i: usize = 0;
        while i < self.entries.len()
            invariant
                i <= self.entries@.len(),
                keys_unique(self.entries@),
                entries@.len() == i,
                forall|j: int|
                    0 <= j < i ==> #[trigger] entries@[j].0@ == self.entries@[j].0@
                        && entries@[j].1@ == self.entries@[j].1@,
            decreases self.entries.len() - i,
        {
            proof {
                assert(decreases_to!(*self => self.entries));
                assert(decreases_to!(self.entries => self.entries@));
                assert(decreases_to!(self.entries@ => self.entries@[i as int]));
                assert(decreases_to!(self.entries@[i as int] => self.entries@[i as int].1));
            }
            let key = self.entries[i].0.clone();
            let value = self.entries[i].1.deep_copy();
            entries.push((key, value));
            i += 1;
        }
        proof {
            lemma_entries_view_alike(entries@, self.entries@);
        }
        Object { entries }
    }
}

impl Clone for Value {
    /// A deep copy, standing for the same value.
    fn clone(&self) -> (r: Value)
        ensures
            r@ == self@,
    {
        self.deep_copy()
    }
}

impl Clone for Object {
    /// A deep copy, with the same bindings.
    fn clone(&self) -> (r: Object)
        ensures
            r@ == self@,
    {
        self.deep_copy()
    }
}

/// What the segments `segs` name inside `v`: `v` itself when there are none,
/// else the first segment looked up in `v` (which must be an object), and so on.
pub open spec fn descend(v: ValueView, segs: Seq<Seq<char>>) -> Option<ValueView>
    decreases segs.len(),
{
    if segs.len() == 0 {
        Some(v)
    } else {
        match v {
            ValueView::Object(m) => if m.contains_key(segs[0]) {
                descend(m[segs[0]], segs.drop_first())
            } else {
                None
            },
            _ => None,
        }
    }
}

/// What the dotted path `p` names among the top-level bindings `m`, if anything.
pub open spec fn lookup_path(m: Map<Seq<char>, ValueView>, p: Seq<char>) -> Option<ValueView> {
    let segs = path_segments(p);
    if m.contains_key(segs[0]) {
        descend(m[segs[0]], segs.drop_first())
    } else {
        None
    }
}

/// What `p` resolves to among `m`: the value it names, or `Absent`.
pub open spec fn resolve_path(m: Map<Seq<char>, ValueView>, p: Seq<char>) -> ValueView {
    match lookup_path(m, p) {
        Some(v) => v,
        None => ValueView::Absent,
    }
}

/// A path that names nothing resolves to `Absent`: among such paths are one
/// whose first segment is not bound, and one that goes on through a value
/// that is not an object.
pub proof fn lemma_unbound_path_resolves_absent(m: Map<Seq<char>, ValueView>, p: Seq<char>)
    ensures
        lookup_path(m, p) is None ==> resolve_path(m, p) == ValueView::Absent,
        !m.contains_key(path_segments(p)[0]) ==> lookup_path(m, p) is None && resolve_path(m, p)
            == ValueView::Absent,
        m.contains_key(path_segments(p)[0]) && path_segments(p).len() > 1 && !(m[path_segments(
            p,
        )[0]] is Object) ==> resolve_path(m, p) == ValueView::Absent,
{
}

/// Follows the segments `segs[from..]` down from `v`.
pub fn descend_from<'v>(v: &'v Value, segs: &Vec<&str>, from: usize) -> (r: Option<&'v Value>)
    requires
        from <= segs@.len(),
    ensures
        view_of_ref(r) == descend(v@, texts_of(segs@).subrange(from as int, segs@.len() as int)),
{
    let ghost all = texts_of(segs@);
    let mut cur: &Value = v;
    let mut i: usize = from;
    while i < segs.len()
        invariant
            from <= i <= segs@.len(),
            all == texts_of(segs@),
            descend(v@, all.subrange(from as int, segs@.len() as int)) == descend(
                cur@,
                all.subrange(i as int, segs@.len() as int),
            ),
        decreases segs.len() - i,
    {
        let ghost rest = all.subrange(i as int, segs@.len() as int);
        assert(rest[0] == segs@[i as int]@);
        assert(rest.drop_first() =~= all.subrange(i + 1, segs@.len() as int));
        match cur {
            Value::Object(o) => match o.get(segs[i]) {
                Some(child) => {
                    cur = child;
                },
                None => {
                    return None;
                },
            },
            _ => {
                return None;
            },
        }
        i += 1;
    }
    Some(cur)
}

impl Value {
    /// The boolean held, or `false` for any other value.
    pub fn as_bool(&self) -> (r: bool)
        ensures
            r == (self@ == ValueView::Bool(true)),
    {
        match self {
            Value::Bool(b) => *b,
            _ => false,
        }
    }

    /// The string held, if this is a string.
    pub fn as_string(&self) -> (r: Option<&String>)
        ensures
            match r {
                Some(s) => self@ == ValueView::Text(s@),
                None => !(self@ is Text),
            },
    {
        match self {
            Value::String(s) => Some(s),
            _ => None,
        }
    }

    /// The elements held, if this is a list.
    pub fn as_list(&self) -> (r: Option<&Vec<Value>>)
        ensures
            match r {
                Some(l) => self@ == ValueView::List(views_of(l@)),
                None => !(self@ is List),
            },
    {
        match self {
            Value::List(l) => Some(l),
            _ => None,
        }
    }

    /// The object held, if this is an object.
    pub fn as_object(&self) -> (r: Option<&Object>)
        ensures
            match r {
                Some(o) => self@ == ValueView::Object(o@),
                None => !(self@ is Object),
            },
    {
        match self {
            Value::Object(o) => Some(o),
            _ => None,
        }
    }
}

/// Read access to the top-level bindings of a bag of values.
pub trait GetContents {
    /// The top-level bindings, by name.
    spec fn bindings(&self) -> Map<Seq<char>, ValueView>;

    fn contents(&self) -> (r: &Object)
        ensures
            r@ == self.bindings(),
    ;
}

/// Write access to the top-level bindings of a bag of values.
pub trait GetContentsMut: GetContents {
    fn contents_mut(&mut self) -> (r: &mut Object)
        ensures
            r@ == old(self).bindings(),
            final(self).bindings() == (*final(r))@,
    ;
}

/// Reading by dotted path.
pub trait GetValue: GetContents {
    /// The value that `path` names, if any.
    fn get_value(&self, path: &str) -> (r: Option<&Value>)
        ensures
            view_of_ref(r) == lookup_path(self.bindings(), path@),
    {
        let segs = split_path(path);
        proof {
            lemma_segments_nonempty(path@, 0);
            assert(texts_of(segs@)[0] == segs@[0]@);
            assert(texts_of(segs@).subrange(1, segs@.len() as int) =~= path_segments(
                path@,
            ).drop_first());
        }
        match self.contents().get(segs[0]) {
            Some(first) => descend_from(first, &segs, 1),
            None => None,
        }
    }

    /// Whether `path` names the boolean `true`; `false` for anything else.
    fn get_bool(&self, path: &str) -> (r: bool)
        ensures
            r == (lookup_path(self.bindings(), path@) == Some(ValueView::Bool(true))),
    {
        match self.get_value(path) {
            Some(v) => v.as_bool(),
            None => false,
        }
    }

    /// The string that `path` names, if it names a string.
    fn get_string(&self, path: &str) -> (r: Option<&String>)
        ensures
            match r {
                Some(s) => lookup_path(self.bindings(), path@) == Some(ValueView::Text(s@)),
                None => !(resolve_path(self.bindings(), path@) is Text),
            },
    {
        match self.get_value(path) {
            Some(v) => v.as_string(),
            None => None,
        }
    }

    /// The list that `path` names, if it names a list.
    fn get_list(&self, path: &str) -> (r: Option<&Vec<Value>>)
        ensures
            match r {
                Some(l) => lookup_path(self.bindings(), path@) == Some(ValueView::List(views_of(l@))),
                None => !(resolve_path(self.bindings(), path@) is List),
            },
    {
        match self.get_value(path) {
            Some(v) => v.as_list(),
            None => None,
        }
    }

    /// The object that `path` names, if it names an object.
    fn get_object(&self, path: &str) -> (r: Option<&Object>)
        ensures
            match r {
                Some(o) => lookup_path(self.bindings(), path@) == Some(ValueView::Object(o@)),
                None => !(resolve_path(self.bindings(), path@) is Object),
            },
    {
        match self.get_value(path) {
            Some(v) => v.as_object(),
            None => None,
        }
    }
}

/// Writing top-level bindings; each setter returns what the name held before.
pub trait SetValue: Sized + GetContentsMut {
    fn set_bool(&mut self, name: &str, boolean: bool) -> (r: Option<Value>)
        ensures
            final(self).bindings() == old(self).bindings().insert(name@, ValueView::Bool(boolean)),
            view_of(r) == map_get(old(self).bindings(), name@),
    {
        self.contents_mut().insert(name.to_owned(), Value::Bool(boolean))
    }

    fn set_string(&mut self, name: &str, string: &str) -> (r: Option<Value>)
        ensures
            final(self).bindings() == old(self).bindings().insert(name@, ValueView::Text(string@)),
            view_of(r) == map_get(old(self).bindings(), name@),
    {
        self.contents_mut().insert(name.to_owned(), Value::String(string.to_owned()))
    }

    fn set_value(&mut self, name: &str, value: Value) -> (r: Option<Value>)
        ensures
            final(self).bindings() == old(self).bindings().insert(name@, value@),
            view_of(r) == map_get(old(self).bindings(), name@),
    {
        self.contents_mut().insert(name.to_owned(), value)
    }

    fn set_list(&mut self, name: &str, values: Vec<Value>) -> (r: Option<Value>)
        ensures
            final(self).bindings() == old(self).bindings().insert(
                name@,
                ValueView::List(views_of(values@)),
            ),
            view_of(r) == map_get(old(self).bindings(), name@),
    {
        self.set_value(name, Value::List(values))
    }

    fn remove(&mut self, name: &str) -> (r: Option<Value>)
        ensures
            final(self).bindings() == old(self).bindings().remove(name@),
            view_of(r) == map_get(old(self).bindings(), name@),
    {
        self.contents_mut().remove(name)
    }
}

impl GetContents for Object {
    open spec fn bindings(&self) -> Map<Seq<char>, ValueView> {
        self@
    }

    fn contents(&self) -> (r: &Object) {
        self
    }
}

impl GetContentsMut for Object {
    fn contents_mut(&mut self) -> (r: &mut Object) {
        self
    }
}

impl GetValue for Object {}

impl SetValue for Object {}

/// The bag of values at the root of a render: an object of top-level bindings.
#[derive(Debug)]
pub struct Context {
    contents: Object,
}

impl View for Context {
    type V = Map<Seq<char>, ValueView>;

    closed spec fn view(&self) -> Map<Seq<char>, ValueView> {
        self.contents@
    }
}

impl Context {
    /// A context with no bindings.
    pub fn new() -> (r: Context)
        ensures
            r@ == Map::<Seq<char>, ValueView>::empty(),
    {
        Context { contents: Object::new() }
    }

    /// The context as an object value.
    pub fn to_value(self) -> (r: Value)
        ensures
            r@ == ValueView::Object(self@),
    {
        Value::Object(self.contents)
    }
}

impl Default for Context {
    fn default() -> (r: Context)
        ensures
            r@ == Map::<Seq<char>, ValueView>::empty(),
    {
        Context::new()
    }
}

impl Default for Object {
    fn default() -> (r: Object)
        ensures
            r@ == Map::<Seq<char>, ValueView>::empty(),
    {
        Object::new()
    }
}

impl Clone for Context {
    /// A deep copy, with the same bindings.
    fn clone(&self) -> (r: Context)
        ensures
            r@ == self@,
    {
        Context { contents: self.contents.deep_copy() }
    }
}

impl GetContents for Context {
    open spec fn bindings(&self) -> Map<Seq<char>, ValueView> {
        self@
    }

    fn contents(&self) -> (r: &Object) {
        &self.contents
    }
}

impl GetContentsMut for Context {
    fn contents_mut(&mut self) -> (r: &mut Object) {
        &mut self.contents
    }
}

impl GetValue for Context {}

impl SetValue for Context {}

/// Builds a context one binding at a time, by value.
#[derive(Debug)]
pub struct ContextBuilder {
    context: Context,
}

impl View for ContextBuilder {
    type V = Map<Seq<char>, ValueView>;

    closed spec fn view(&self) -> Map<Seq<char>, ValueView> {
        self.context@
    }
}

impl ContextBuilder {
    /// A builder with no bindings.
    pub fn new() -> (r: ContextBuilder)
        ensures
            r@ == Map::<Seq<char>, ValueView>::empty(),
    {
        ContextBuilder { context: Context::new() }
    }

    /// Binds `name` to the boolean `boolean`.
    pub fn set_bool(self, name: &str, boolean: bool) -> (r: ContextBuilder)
        ensures
            r@ == self@.insert(name@, ValueView::Bool(boolean)),
    {
        let mut b = self;
        b.context.set_bool(name, boolean);
        b
    }

    /// Binds `name` to a string with the text of `string`.
    pub fn set_string(self, name: &str, string: &str) -> (r: ContextBuilder)
        ensures
            r@ == self@.insert(name@, ValueView::Text(string@)),
    {
        let mut b = self;
        b.context.set_string(name, string);
        b
    }

    /// Binds `name` to the list `values`.
    pub fn set_list(self, name: &str, values: Vec<Value>) -> (r: ContextBuilder)
        ensures
            r@ == self@.insert(name@, ValueView::List(views_of(values@))),
    {
        let mut b = self;
        b.context.set_list(name, values);
        b
    }

    /// Binds `name` to `value`.
    pub fn set_value(self, name: &str, value: Value) -> (r: ContextBuilder)
        ensures
            r@ == self@.insert(name@, value@),
    {
        let mut b = self;
        b.context.set_value(name, value);
        b
    }

    /// The context built so far.
    pub fn build(self) -> (r: Context)
        ensures
            r@ == self@,
    {
        self.context
    }

    /// The context built so far, as an object value.
    pub fn build_to_value(self) -> (r: Value)
        ensures
            r@ == ValueView::Object(self@),
    {
        self.build().to_value()
    }
}

impl Clone for ContextBuilder {
    /// A deep copy, with the same bindings.
    fn clone(&self) -> (r: ContextBuilder)
        ensures
            r@ == self@,
    {
        ContextBuilder { context: self.context.clone() }
    }
}

impl Default for ContextBuilder {
    fn default() -> (r: ContextBuilder)
        ensures
            r@ == Map::<Seq<char>, ValueView>::empty(),
    {
        ContextBuilder::new()
    }
}

impl From<Object> for Context {
    fn from(contents: Object) -> (r: Context) {
        Context { contents }
    }
}

impl vstd::std_specs::convert::FromSpecImpl<Object> for Context {
    open spec fn obeys_from_spec() -> bool {
        true
    }

    closed spec fn from_spec(v: Object) -> Context {
        Context { contents: v }
    }
}

/// Why a structured value could not be turned into a context.
#[derive(Debug, PartialEq, Eq)]
pub enum Error {
    /// A kind of value that has no counterpart in the value tree.
    Unsupported(&'static str),
    /// A map key that is not a string.
    KeyNotString,
    /// A key that was given no value.
    NoValueForKey(String),
    /// A value that was given no key.
    NoKeyForValue,
    /// A message from the value being converted.
    Custom(String),
}

impl From<Context> for ContextBuilder {
    fn from(context: Context) -> (r: ContextBuilder) {
        ContextBuilder { context }
    }
}

impl vstd::std_specs::convert::FromSpecImpl<Context> for ContextBuilder {
    open spec fn obeys_from_spec() -> bool {
        true
    }

    closed spec fn from_spec(v: Context) -> ContextBuilder {
        ContextBuilder { context: v }
    }
}

impl From<Context> for Value {
    fn from(context: Context) -> (r: Value) {
        Value::Object(context.contents)
    }
}

impl vstd::std_specs::convert::FromSpecImpl<Context> for Value {
    open spec fn obeys_from_spec() -> bool {
        true
    }

    closed spec fn from_spec(v: Context) -> Value {
        Value::Object(v.contents)
    }
}

impl From<ContextBuilder> for Value {
    fn from(builder: ContextBuilder) -> (r: Value) {
        Value::Object(builder.context.contents)
    }
}

impl vstd::std_specs::convert::FromSpecImpl<ContextBuilder> for Value {
    open spec fn obeys_from_spec() -> bool {
        true
    }

    closed spec fn from_spec(v: ContextBuilder) -> Value {
        Value::Object(v.context.contents)
    }
}

/// The conversions between objects, contexts, builders and values keep the bindings.
pub proof fn lemma_conversions_keep_bindings(o: Object, c: Context, b: ContextBuilder)
    ensures
        <Context as vstd::std_specs::convert::FromSpec<Object>>::from_spec(o)@ == o@,
        <ContextBuilder as vstd::std_specs::convert::FromSpec<Context>>::from_spec(c)@ == c@,
        <Value as vstd::std_specs::convert::FromSpec<Context>>::from_spec(c)@ == ValueView::Object(
            c@,
        ),
        <Value as vstd::std_specs::convert::FromSpec<ContextBuilder>>::from_spec(b)@
            == ValueView::Object(b@),
{
}

impl From<Object> for Value {
    fn from(object: Object) -> (r: Value) {
        Value::Object(object)
    }
}

impl vstd::std_specs::convert::FromSpecImpl<Object> for Value {
    open spec fn obeys_from_spec() -> bool {
        true
    }

    open spec fn from_spec(v: Object) -> Value {
        Value::Object(v)
    }
}

impl From<bool> for Value {
    fn from(boolean: bool) -> (r: Value) {
        Value::Bool(boolean)
    }
}

impl vstd::std_specs::convert::FromSpecImpl<bool> for Value {
    open spec fn obeys_from_spec() -> bool {
        true
    }

    open spec fn from_spec(v: bool) -> Value {
        Value::Bool(v)
    }
}

impl From<String> for Value {
    fn from(string: String) -> (r: Value) {
        Value::String(string)
    }
}

impl vstd::std_specs::convert::FromSpecImpl<String> for Value {
    open spec fn obeys_from_spec() -> bool {
        true
    }

    open spec fn from_spec(v: String) -> Value {
        Value::String(v)
    }
}

impl From<Vec<Value>> for Value {
    fn from(list: Vec<Value>) -> (r: Value) {
        Value::List(list)
    }
}

impl vstd::std_specs::convert::FromSpecImpl<Vec<Value>> for Value {
    open spec fn obeys_from_spec() -> bool {
        true
    }

    open spec fn from_spec(v: Vec<Value>) -> Value {
        Value::List(v)
    }
}

} // verus!

//! The parameter map and the rules that turn values into its entries.
use crate::surql::{parse_thing, record_id_of, record_matches};
use crate::value::{Error, RecordId, Value};
use vstd::prelude::*;

verus! {

/// The map that a sequence of entries describes: a later entry for a name
/// replaces an earlier one.
pub open spec fn map_of(entries: Seq<(String, Value)>) -> Map<Seq<char>, Value>
    decreases entries.len(),
{
    if entries.len() == 0 {
        Map::empty()
    } else {
        map_of(entries.drop_last()).insert(entries.last().0@, entries.last().1)
    }
}

/// No two entries share a name.
pub open spec fn names_distinct(entries: Seq<(String, Value)>) -> bool {
    forall|i: int, j: int|
        0 <= i < j < entries.len() ==> #[trigger] entries[i].0@ != #[trigger] entries[j].0@
}

proof fn lemma_map_of_has(entries: Seq<(String, Value)>, k: Seq<char>)
    ensures
        map_of(entries).contains_key(k) <==> exists|i: int|
            0 <= i < entries.len() && #[trigger] entries[i].0@ == k,
    decreases entries.len(),
{
    if entries.len() > 0 {
        let d = entries.drop_last();
        lemma_map_of_has(d, k);
        if map_of(d).contains_key(k) {
            let i = choose|i: int| 0 <= i < d.len() && #[trigger] d[i].0@ == k;
            assert(entries[i].0@ == k);
        }
        if exists|i: int| 0 <= i < entries.len() && #[trigger] entries[i].0@ == k {
            let i = choose|i: int| 0 <= i < entries.len() && #[trigger] entries[i].0@ == k;
            if i < entries.len() - 1 {
                assert(d[i].0@ == k);
            }
        }
    }
}

proof fn lemma_map_of_at(entries: Seq<(String, Value)>, i: int)
    requires
        names_distinct(entries),
        0 <= i < entries.len(),
    ensures
        map_of(entries).contains_key(entries[i].0@),
        map_of(entries)[entries[i].0@] == entries[i].1,
    decreases entries.len(),
{
    let d = entries.drop_last();
    if i < entries.len() - 1 {
        assert(d[i] == entries[i]);
        lemma_map_of_at(d, i);
        assert(entries[i].0@ != entries[entries.len() - 1].0@);
    }
}

proof fn lemma_map_of_update(entries: Seq<(String, Value)>, i: int, e: (String, Value))
    requires
        names_distinct(entries),
        0 <= i < entries.len(),
        e.0@ == entries[i].0@,
    ensures
        map_of(entries.update(i, e)) == map_of(entries).insert(e.0@, e.1),
        names_distinct(entries.update(i, e)),
    decreases entries.len(),
{
    let u = entries.update(i, e);
    let d = entries.drop_last();
    assert forall|a: int, b: int| 0 <= a < b < u.len() implies #[trigger] u[a].0@
        != #[trigger] u[b].0@ by {
        assert(entries[a].0@ != entries[b].0@);
    }
    if i == entries.len() - 1 {
        assert(u.drop_last() =~= d);
        assert(map_of(u) =~= map_of(entries).insert(e.0@, e.1));
    } else {
        assert(u.drop_last() =~= d.update(i, e));
        lemma_map_of_update(d, i, e);
        assert(entries.last().0@ != entries[i].0@);
        assert(map_of(u) =~= map_of(entries).insert(e.0@, e.1));
    }
}

proof fn lemma_map_of_len(entries: Seq<(String, Value)>)
    requires
        names_distinct(entries),
    ensures
        map_of(entries).dom().finite(),
        map_of(entries).dom().len() == entries.len(),
    decreases entries.len(),
{
    if entries.len() > 0 {
        let d = entries.drop_last();
        assert(names_distinct(d)) by {
            assert forall|a: int, b: int| 0 <= a < b < d.len() implies #[trigger] d[a].0@
                != #[trigger] d[b].0@ by {
                assert(entries[a].0@ != entries[b].0@);
            }
        }
        lemma_map_of_len(d);
        lemma_map_of_has(d, entries.last().0@);
        if map_of(d).contains_key(entries.last().0@) {
            let i = choose|i: int| 0 <= i < d.len() && #[trigger] d[i].0@ == entries.last().0@;
            assert(entries[i].0@ != entries[entries.len() - 1].0@);
        }
    }
}

/// The parameter map: parameter names, each bound to one value.
#[derive(Debug)]
pub struct BindingMap {
    entries: Vec<(String, Value)>,
}

impl View for BindingMap {
    type V = Map<Seq<char>, Value>;

    closed spec fn view(&self) -> Map<Seq<char>, Value> {
        map_of(self.entries@)
    }
}

impl BindingMap {
    /// Each name appears in one entry only.
    pub closed spec fn wf(&self) -> bool {
        names_distinct(self.entries@)
    }

    pub fn new() -> (r: BindingMap)
        ensures
            r.wf(),
            r@ == Map::<Seq<char>, Value>::empty(),
    {
        BindingMap { entries: Vec::new() }
    }

    /// Binds `name` to `value`, replacing what `name` was bound to before.
    pub fn insert(&mut self, name: String, value: Value)
        requires
            old(self).wf(),
        ensures
            final(self).wf(),
            final(self)@ == old(self)@.insert(name@, value),
    {
        let ghost before = self.entries@;
        let mut i: usize = 0;
        while i < self.entries.len()
            invariant
                self.entries@ == before,
                old(self).entries@ == before,
                names_distinct(before),
                0 <= i <= before.len(),
                forall|j: int| 0 <= j < i ==> #[trigger] before[j].0@ != name@,
            decreases before.len() - i,
        {
            if self.entries[i].0 == name {
                let ghost e = (name, value);
                proof {
                    lemma_map_of_update(before, i as int, e);
                }
                self.entries.set(i, (name, value));
                return;
            }
            i += 1;
        }
        let ghost e = (name, value);
        self.entries.push((name, value));
        proof {
            assert(self.entries@.drop_last() =~= before);
            assert forall|a: int, b: int| 0 <= a < b < self.entries@.len() implies
                #[trigger] self.entries@[a].0@ != #[trigger] self.entries@[b].0@ by {
                if b < before.len() {
                    assert(before[a].0@ != before[b].0@);
                }
            }
        }
    }

    /// The value bound to `name`, if any.
    pub fn get(&self, name: &str) -> (r: Option<&Value>)
        requires
            self.wf(),
        ensures
            r is Some <==> self@.contains_key(name@),
            r is Some ==> *r->Some_0 == self@[name@],
    {
        let key = String::from_str(name);
        let mut i: usize = 0;
        while i < self.entries.len()
            invariant
                key@ == name@,
                names_distinct(self.entries@),
                0 <= i <= self.entries@.len(),
                forall|j: int| 0 <= j < i ==> #[trigger] self.entries@[j].0@ != name@,
            decreases self.entries@.len() - i,
        {
            if self.entries[i].0 == key {
                proof {
                    lemma_map_of_at(self.entries@, i as int);
                }
                return Some(&self.entries[i].1);
            }
            i += 1;
        }
        proof {
            lemma_map_of_has(self.entries@, name@);
        }
        None
    }

    /// The number of bound names.
    pub fn len(&self) -> (r: usize)
        requires
            self.wf(),
        ensures
            r == self@.dom().len(),
    {
        proof {
            lemma_map_of_len(self.entries@);
        }
        self.entries.len()
    }

    /// The entries, one per bound name.
    pub fn into_entries(self) -> (r: Vec<(String, Value)>)
        requires
            self.wf(),
        ensures
            names_distinct(r@),
            map_of(r@) == self@,
    {
        self.entries
    }
}

/// `v` is what a string `s` is bound as: the record identifier that `s`
/// spells, or else the string itself.
pub open spec fn holds_text(v: Value, s: Seq<char>) -> bool {
    match record_id_of(s) {
        Some(p) => v matches Value::Thing(id) && record_matches(id, p),
        None => v matches Value::Strand(t) && t@ == s,
    }
}

/// `out` is what a field value `input` is bound as: a string goes through
/// the identifier rule, any other value is bound as it is.
pub open spec fn field_holds(out: Value, input: Value) -> bool {
    match input {
        Value::Strand(s) => holds_text(out, s@),
        _ => out == input,
    }
}

/// The index of the last field named `k`, if any.
pub open spec fn last_field(fields: Seq<(String, Value)>, k: Seq<char>) -> Option<int>
    decreases fields.len(),
{
    if fields.len() == 0 {
        None
    } else if fields.last().0@ == k {
        Some(fields.len() - 1)
    } else {
        last_field(fields.drop_last(), k)
    }
}

proof fn lemma_last_field_range(fields: Seq<(String, Value)>, k: Seq<char>)
    ensures
        last_field(fields, k) matches Some(i) ==> 0 <= i < fields.len() && fields[i].0@ == k,
    decreases fields.len(),
{
    if fields.len() > 0 {
        lemma_last_field_range(fields.drop_last(), k);
    }
}

/// `new` is `old` with each field of `fields` bound under its name, a later
/// field winning over an earlier one of the same name.
pub open spec fn fields_bound(
    old: Map<Seq<char>, Value>,
    fields: Seq<(String, Value)>,
    new: Map<Seq<char>, Value>,
) -> bool {
    &&& forall|k: Seq<char>|
        #![trigger new.contains_key(k)]
        #![trigger old.contains_key(k)]
        #![trigger last_field(fields, k)]
        new.contains_key(k) <==> (old.contains_key(k) || last_field(fields, k) is Some)
    &&& forall|k: Seq<char>| #[trigger]
        new.contains_key(k) ==> match last_field(fields, k) {
            Some(i) => field_holds(new[k], fields[i].1),
            None => new[k] == old[k],
        }
}

/// `new` is `old` with `name` bound to what the string `s` is bound as.
pub open spec fn text_bound(
    old: Map<Seq<char>, Value>,
    name: Seq<char>,
    s: Seq<char>,
    new: Map<Seq<char>, Value>,
) -> bool {
    new.contains_key(name) && new == old.insert(name, new[name]) && holds_text(new[name], s)
}

/// Binds the string `s` given what the identifier parser made of it: the
/// identifier where there is one, the string itself otherwise.
pub fn resolve_text(s: String, parsed: Option<RecordId>) -> (v: Value)
    ensures
        parsed is Some ==> v == Value::Thing(parsed->Some_0),
        parsed is None ==> v == Value::Strand(s),
{
    match parsed {
        Some(id) => Value::Thing(id),
        None => Value::Strand(s),
    }
}

/// The record identifier that `s` spells, if it spells one.
pub fn into_thing(s: &str) -> (r: Option<RecordId>)
    ensures
        r is Some <==> record_id_of(s@) is Some,
        r is Some ==> record_matches(r->Some_0, record_id_of(s@)->Some_0),
{
    parse_thing(s)
}

/// The value a string is bound as.
pub fn text_value(s: String) -> (v: Value)
    ensures
        holds_text(v, s@),
        record_id_of(s@) is None ==> v == Value::Strand(s),
{
    let parsed = parse_thing(s.as_str());
    resolve_text(s, parsed)
}

/// The value a field value is bound as.
pub fn field_value(v: Value) -> (r: Value)
    ensures
        field_holds(r, v),
{
    match v {
        Value::Strand(s) => text_value(s),
        other => other,
    }
}

impl BindingMap {
    /// Binds `name` to the string `s`, or to the record identifier it spells.
    pub fn insert_text(&mut self, name: String, s: String)
        requires
            old(self).wf(),
        ensures
            final(self).wf(),
            text_bound(old(self)@, name@, s@, final(self)@),
            record_id_of(s@) is None ==> final(self)@ == old(self)@.insert(
                name@,
                Value::Strand(s),
            ),
    {
        let ghost text = s;
        let v = text_value(s);
        self.insert(name, v);
        proof {
            assert(self@[name@] == v);
        }
    }

    /// Binds each field under its name, a string field through the identifier
    /// rule.
    pub fn insert_fields(&mut self, fields: Vec<(String, Value)>)
        requires
            old(self).wf(),
        ensures
            final(self).wf(),
            fields_bound(old(self)@, fields@, final(self)@),
    {
        let ghost start = self@;
        let ghost all = fields@;
        let mut rest = fields;
        let total: usize = rest.len();
        let mut i: usize = 0;
        while rest.len() > 0
            invariant
                self.wf(),
                0 <= i <= all.len(),
                all.len() == total,
                rest@ == all.skip(i as int),
                fields_bound(start, all.take(i as int), self@),
            decreases rest@.len(),
        {
            let ghost prev = self@;
            let (k, v) = rest.remove(0);
            let ghost vv = v;
            assert(all[i as int] == (k, vv));
            let w = field_value(v);
            self.insert(k, w);
            proof {
                let pre = all.take(i as int);
                let cur = all.take(i + 1);
                assert(cur.drop_last() =~= pre);
                assert(rest@ =~= all.skip(i + 1));
                assert forall|q: Seq<char>| #[trigger] self@.contains_key(q) implies match last_field(cur, q) {
                    Some(j) => field_holds(self@[q], cur[j].1),
                    None => self@[q] == start[q],
                } by {
                    if q != k@ {
                        assert(prev.contains_key(q));
                        lemma_last_field_range(pre, q);
                    }
                }
                assert forall|q: Seq<char>| #![trigger self@.contains_key(q)]
                    #![trigger start.contains_key(q)] #![trigger last_field(cur, q)]
                    self@.contains_key(q) <==> (start.contains_key(q) || last_field(cur, q) is Some) by {
                    if q != k@ {
                        assert(prev.contains_key(q) <==> self@.contains_key(q));
                    }
                }
            }
            i += 1;
        }
        proof {
            assert(all.take(i as int) =~= all);
        }
    }

    /// Binds every entry of `other` here, replacing what its names were bound
    /// to before.
    pub fn append(&mut self, other: BindingMap)
        requires
            old(self).wf(),
            other.wf(),
        ensures
            final(self).wf(),
            final(self)@ == old(self)@.union_prefer_right(other@),
    {
        let ghost start = self@;
        let ghost all = other.entries@;
        let mut rest = other.entries;
        let total: usize = rest.len();
        let mut i: usize = 0;
        while rest.len() > 0
            invariant
                self.wf(),
                0 <= i <= all.len(),
                all.len() == total,
                rest@ == all.skip(i as int),
                self@ == start.union_prefer_right(map_of(all.take(i as int))),
            decreases rest@.len(),
        {
            let (k, v) = rest.remove(0);
            let ghost vv = v;
            assert(all[i as int] == (k, vv));
            self.insert(k, v);
            proof {
                assert(all.take(i + 1).drop_last() =~= all.take(i as int));
                assert(rest@ =~= all.skip(i + 1));
                assert(self@ =~= start.union_prefer_right(map_of(all.take(i + 1))));
            }
            i += 1;
        }
        proof {
            assert(all.take(i as int) =~= all);
        }
    }
}

/// Binding a name twice keeps only the later value: as a plain value, and as
/// a string that goes through the identifier rule.
pub proof fn later_bind_wins(
    m: Map<Seq<char>, Value>,
    name: Seq<char>,
    first: Value,
    second: Value,
    m1: Map<Seq<char>, Value>,
    s1: Seq<char>,
    m2: Map<Seq<char>, Value>,
    s2: Seq<char>,
)
    requires
        text_bound(m, name, s1, m1),
        text_bound(m1, name, s2, m2),
    ensures
        m.insert(name, first).insert(name, second) == m.insert(name, second),
        text_bound(m, name, s2, m2),
{
    assert(m.insert(name, first).insert(name, second) =~= m.insert(name, second));
    assert(m2 =~= m.insert(name, m2[name]));
}

/// A parameter map built on its own, to be merged into a query.
#[derive(Debug)]
pub struct QueryBindings {
    bindings: BindingMap,
}

impl View for QueryBindings {
    type V = Map<Seq<char>, Value>;

    closed spec fn view(&self) -> Map<Seq<char>, Value> {
        self.bindings@
    }
}

impl QueryBindings {
    pub closed spec fn wf(&self) -> bool {
        self.bindings.wf()
    }

    pub fn new() -> (r: QueryBindings)
        ensures
            r.wf(),
            r@ == Map::<Seq<char>, Value>::empty(),
    {
        QueryBindings { bindings: BindingMap::new() }
    }

    /// One name bound to one value, kept as it is.
    pub fn from_pair(name: String, value: Value) -> (r: QueryBindings)
        ensures
            r.wf(),
            r@ == Map::<Seq<char>, Value>::empty().insert(name@, value),
    {
        let mut r = QueryBindings::new();
        r.bindings.insert(name, value);
        r
    }

    /// The fields of an object, each bound under its name; any other value
    /// has no fields to bind.
    pub fn from_value(value: Value) -> (r: Result<QueryBindings, Error>)
        ensures
            value is Object <==> r is Ok,
            !(value is Object) ==> r == Err::<QueryBindings, Error>(Error::UnsupportedShape),
            value matches Value::Object(fields) ==> r->Ok_0.wf() && fields_bound(
                Map::empty(),
                fields@,
                r->Ok_0@,
            ),
    {
        match value {
            Value::Object(fields) => {
                let mut r = QueryBindings::new();
                r.bindings.insert_fields(fields);
                Ok(r)
            },
            _ => Err(Error::UnsupportedShape),
        }
    }

    /// The map itself.
    pub fn into_map(self) -> (r: BindingMap)
        requires
            self.wf(),
        ensures
            r.wf(),
            r@ == self@,
    {
        self.bindings
    }
}

/// A value to bind, by the shape it comes in.
#[derive(Debug)]
pub enum Binding {
    /// A name and a value, bound as they are.
    Tagged(String, Value),
    /// A name and a string, bound as a record identifier where the string
    /// spells one.
    Text(String, String),
    /// A name and a string that may be absent; an absent one binds nothing.
    OptionalText(String, Option<String>),
    /// A whole parameter map, merged in.
    Merged(QueryBindings),
    /// An object whose fields are bound under their names.
    Aggregate(Value),
}

/// A value that can be bound into a parameter map.
pub trait AppendBinding: Sized {
    /// The value is fit to bind.
    spec fn binding_wf(&self) -> bool;

    /// Binding the value is refused.
    spec fn refused(&self) -> bool;

    /// What binding the value into `old` gives when it is not refused.
    spec fn bound(&self, old: Map<Seq<char>, Value>, new: Map<Seq<char>, Value>) -> bool;

    /// Adds the entries that the value stands for to `bindings`.
    fn append_binding(self, bindings: &mut BindingMap) -> (r: Result<(), Error>)
        requires
            old(bindings).wf(),
            self.binding_wf(),
        ensures
            final(bindings).wf(),
            r is Err <==> self.refused(),
            r is Err ==> r == Err::<(), Error>(Error::UnsupportedShape) && final(bindings)@ == old(
                bindings,
            )@,
            r is Ok ==> self.bound(old(bindings)@, final(bindings)@),
    ;
}

impl AppendBinding for Binding {
    open spec fn binding_wf(&self) -> bool {
        self matches Binding::Merged(q) ==> q.wf()
    }

    /// Refused where an aggregate that is not an object is to be decomposed.
    open spec fn refused(&self) -> bool {
        self matches Binding::Aggregate(v) && !(v is Object)
    }

    open spec fn bound(&self, old: Map<Seq<char>, Value>, new: Map<Seq<char>, Value>) -> bool {
        match *self {
            Binding::Tagged(n, v) => new == old.insert(n@, v),
            Binding::Text(n, s) => text_bound(old, n@, s@, new),
            Binding::OptionalText(n, o) => match o {
                Some(s) => text_bound(old, n@, s@, new),
                None => new == old,
            },
            Binding::Merged(q) => new == old.union_prefer_right(q@),
            Binding::Aggregate(v) => match v {
                Value::Object(fields) => fields_bound(old, fields@, new),
                _ => new == old,
            },
        }
    }

    fn append_binding(self, bindings: &mut BindingMap) -> (r: Result<(), Error>) {
        match self {
            Binding::Tagged(n, v) => {
                bindings.insert(n, v);
                Ok(())
            },
            Binding::Text(n, s) => {
                bindings.insert_text(n, s);
                Ok(())
            },
            Binding::OptionalText(n, o) => {
                match o {
                    Some(s) => bindings.insert_text(n, s),
                    None => {},
                }
                Ok(())
            },
            Binding::Merged(q) => {
                bindings.append(q.into_map());
                Ok(())
            },
            Binding::Aggregate(v) => match v {
                Value::Object(fields) => {
                    bindings.insert_fields(fields);
                    Ok(())
                },
                _ => Err(Error::UnsupportedShape),
            },
        }
    }
}

/// A name and a value, bound as they are.
impl AppendBinding for (String, Value) {
    open spec fn binding_wf(&self) -> bool {
        true
    }

    open spec fn refused(&self) -> bool {
        false
    }

    open spec fn bound(&self, old: Map<Seq<char>, Value>, new: Map<Seq<char>, Value>) -> bool {
        new == old.insert(self.0@, self.1)
    }

    fn append_binding(self, bindings: &mut BindingMap) -> (r: Result<(), Error>) {
        bindings.insert(self.0, self.1);
        Ok(())
    }
}

/// A name and a string, bound as the record identifier it spells or as the
/// string itself.
impl AppendBinding for (String, String) {
    open spec fn binding_wf(&self) -> bool {
        true
    }

    open spec fn refused(&self) -> bool {
        false
    }

    open spec fn bound(&self, old: Map<Seq<char>, Value>, new: Map<Seq<char>, Value>) -> bool {
        text_bound(old, self.0@, self.1@, new)
    }

    fn append_binding(self, bindings: &mut BindingMap) -> (r: Result<(), Error>) {
        bindings.insert_text(self.0, self.1);
        Ok(())
    }
}

/// A name and a string that may be absent; an absent one binds nothing.
impl AppendBinding for (String, Option<String>) {
    open spec fn binding_wf(&self) -> bool {
        true
    }

    open spec fn refused(&self) -> bool {
        false
    }

    open spec fn bound(&self, old: Map<Seq<char>, Value>, new: Map<Seq<char>, Value>) -> bool {
        match self.1 {
            Some(s) => text_bound(old, self.0@, s@, new),
            None => new == old,
        }
    }

    fn append_binding(self, bindings: &mut BindingMap) -> (r: Result<(), Error>) {
        match self.1 {
            Some(s) => bindings.insert_text(self.0, s),
            None => {},
        }
        Ok(())
    }
}

} // verus!

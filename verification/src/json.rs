use vstd::prelude::*;
use vstd::string::*;
use crate::assoc::{assoc_get, lemma_assoc_get_skip};

verus! {

broadcast use vstd::std_specs::vec::axiom_vec_index_decreases;

/// A JSON number, kept in one of three forms. Two numbers are the same
/// exactly where they have the same form and the same content.
#[derive(Clone, Copy, Debug, PartialEq, Eq, Structural)]
pub enum JsonNum {
    /// A non-negative integer.
    PosInt(u64),
    /// A negative integer.
    NegInt(i64),
    /// A finite floating-point number, by its IEEE-754 bit pattern.
    Float(u64),
}

/// The mathematical value of a JSON document.
pub enum JsonV {
    Null,
    Bool(bool),
    Number(JsonNum),
    Str(Seq<char>),
    Array(Seq<JsonV>),
    Object(Seq<(Seq<char>, JsonV)>),
}

/// The mathematical value of a JSON object: its entries, in order.
pub type ObjV = Seq<(Seq<char>, JsonV)>;

/// A JSON value.
#[derive(Debug, PartialEq, Eq)]
pub enum Json {
    Null,
    Bool(bool),
    Number(JsonNum),
    Str(String),
    Array(Vec<Json>),
    Object(JsonMap),
}

/// A JSON object: its entries in ascending order of their keys, each key once.
#[derive(Debug, PartialEq, Eq)]
pub struct JsonMap {
    entries: Vec<(String, Json)>,
}

/// The mathematical values of a list of JSON values.
pub open spec fn view_items(s: Seq<Json>) -> Seq<JsonV>
    decreases s,
{
    if s.len() == 0 {
        Seq::empty()
    } else {
        view_items(s.subrange(0, s.len() - 1)).push(s[s.len() - 1].view())
    }
}

/// The mathematical values of a list of object entries.
pub open spec fn view_entries(s: Seq<(String, Json)>) -> Seq<(Seq<char>, JsonV)>
    decreases s,
{
    if s.len() == 0 {
        Seq::empty()
    } else {
        view_entries(s.subrange(0, s.len() - 1)).push((s[s.len() - 1].0@, s[s.len() - 1].1.view()))
    }
}

impl Json {
    /// A copy of this value.
    pub fn deep_copy(&self) -> (r: Json)
        ensures
            r@ == self@,
        decreases self,
    {
        match self {
            Json::Null => Json::Null,
            Json::Bool(b) => Json::Bool(*b),
            Json::Number(n) => Json::Number(*n),
            Json::Str(s) => Json::Str(s.clone()),
            Json::Array(v) => {
                let n = v.len();
                let mut out: Vec<Json> = Vec::new();
                let mut i: usize = 0;
                #[verifier::loop_isolation(false)]
                while i < n
                    invariant
                        n == v@.len(),
                        i <= n,
                        out@.len() == i,
                        forall|j: int| 0 <= j < i ==> (#[trigger] out@[j])@ == v@[j]@,
                    decreases n - i,
                {
                    proof {
                        assert(decreases_to!(v => v[i as int]));
                    }
                    let c = v[i].deep_copy();
                    out.push(c);
                    i = i + 1;
                }
                proof {
                    lemma_view_items(out@);
                    lemma_view_items(v@);
                    assert(view_items(out@) =~= view_items(v@));
                }
                Json::Array(out)
            },
            Json::Object(m) => Json::Object(m.deep_copy()),
        }
    }

    /// Whether this value and `other` are the same JSON value.
    pub fn equals(&self, other: &Json) -> (r: bool)
        ensures
            r == (self@ == other@),
        decreases self,
    {
        match (self, other) {
            (Json::Null, Json::Null) => true,
            (Json::Bool(a), Json::Bool(b)) => *a == *b,
            (Json::Number(a), Json::Number(b)) => *a == *b,
            (Json::Str(a), Json::Str(b)) => *a == *b,
            (Json::Array(a), Json::Array(b)) => {
                proof {
                    lemma_view_items(a@);
                    lemma_view_items(b@);
                }
                let n = a.len();
                if n != b.len() {
                    return false;
                }
                let mut i: usize = 0;
                #[verifier::loop_isolation(false)]
                while i < n
                    invariant
                        n == a@.len(),
                        n == b@.len(),
                        i <= n,
                        forall|j: int| 0 <= j < i ==> (#[trigger] a@[j])@ == b@[j]@,
                    decreases n - i,
                {
                    proof {
                        assert(decreases_to!(a => a[i as int]));
                    }
                    if !a[i].equals(&b[i]) {
                        assert(view_items(a@)[i as int] != view_items(b@)[i as int]);
                        return false;
                    }
                    i = i + 1;
                }
                assert(view_items(a@) =~= view_items(b@));
                true
            },
            (Json::Object(a), Json::Object(b)) => a.equals(b),
            _ => false,
        }
    }

    /// The mathematical value of this JSON value.
    pub open spec fn view(&self) -> JsonV
        decreases self,
    {
        match self {
            Json::Null => JsonV::Null,
            Json::Bool(b) => JsonV::Bool(*b),
            Json::Number(n) => JsonV::Number(*n),
            Json::Str(s) => JsonV::Str(s@),
            Json::Array(v) => JsonV::Array(view_items(v@)),
            Json::Object(m) => JsonV::Object(m.view()),
        }
    }
}

/// The view of a list of values is the list of their views.
pub proof fn lemma_view_items(s: Seq<Json>)
    ensures
        view_items(s).len() == s.len(),
        forall|i: int| 0 <= i < s.len() ==> #[trigger] view_items(s)[i] == s[i]@,
    decreases s.len(),
{
    if s.len() > 0 {
        lemma_view_items(s.subrange(0, s.len() - 1));
    }
}

/// The view of a list of entries is the list of their views.
pub proof fn lemma_view_entries(s: Seq<(String, Json)>)
    ensures
        view_entries(s).len() == s.len(),
        forall|i: int|
            0 <= i < s.len() ==> #[trigger] view_entries(s)[i] == (s[i].0@, s[i].1@),
    decreases s.len(),
{
    if s.len() > 0 {
        lemma_view_entries(s.subrange(0, s.len() - 1));
    }
}

/// The entries of an object are in strictly ascending order of their keys.
pub open spec fn keys_sorted(s: Seq<(Seq<char>, JsonV)>) -> bool {
    forall|i: int, j: int| 0 <= i < j < s.len() ==> key_lt(#[trigger] s[i].0, #[trigger] s[j].0)
}

/// The entries `s` with `v` stored under `k`, in key order: an existing entry
/// for `k` is replaced, otherwise a new one goes where its key belongs.
pub open spec fn obj_insert(s: Seq<(Seq<char>, JsonV)>, k: Seq<char>, v: JsonV) -> Seq<
    (Seq<char>, JsonV),
>
    decreases s.len(),
{
    if s.len() == 0 {
        seq![(k, v)]
    } else if key_lt(k, s[0].0) {
        seq![(k, v)] + s
    } else if s[0].0 == k {
        seq![(k, v)] + s.drop_first()
    } else {
        seq![s[0]] + obj_insert(s.drop_first(), k, v)
    }
}

/// The entries `s` with the entries of `t` stored into them one after the other.
pub open spec fn obj_append(s: Seq<(Seq<char>, JsonV)>, t: Seq<(Seq<char>, JsonV)>) -> Seq<
    (Seq<char>, JsonV),
>
    decreases t.len(),
{
    if t.len() == 0 {
        s
    } else {
        obj_insert(obj_append(s, t.subrange(0, t.len() - 1)), t[t.len() - 1].0, t[t.len() - 1].1)
    }
}

/// Each key after storing under `k` is `k` or a key of the object before.
pub proof fn lemma_obj_insert_keys(s: Seq<(Seq<char>, JsonV)>, k: Seq<char>, v: JsonV, i: int)
    requires
        0 <= i < obj_insert(s, k, v).len(),
    ensures
        obj_insert(s, k, v)[i].0 == k || exists|j: int|
            0 <= j < s.len() && s[j].0 == #[trigger] obj_insert(s, k, v)[i].0,
    decreases s.len(),
{
    let r = obj_insert(s, k, v);
    if s.len() == 0 {
    } else if key_lt(k, s[0].0) {
        if i > 0 {
            assert(r[i].0 == s[i - 1].0);
        }
    } else if s[0].0 == k {
        if i > 0 {
            assert(r[i].0 == s[i].0);
        }
    } else {
        if i > 0 {
            lemma_obj_insert_keys(s.drop_first(), k, v, i - 1);
            if r[i].0 != k {
                let j = choose|j: int|
                    0 <= j < s.drop_first().len() && s.drop_first()[j].0 == obj_insert(
                        s.drop_first(),
                        k,
                        v,
                    )[i - 1].0;
                assert(s[j + 1].0 == r[i].0);
            }
        } else {
            assert(s[0].0 == r[0].0);
        }
    }
}

/// Storing a value keeps the keys of an object in order.
pub proof fn lemma_obj_insert_sorted(s: Seq<(Seq<char>, JsonV)>, k: Seq<char>, v: JsonV)
    requires
        keys_sorted(s),
    ensures
        keys_sorted(obj_insert(s, k, v)),
    decreases s.len(),
{
    let r = obj_insert(s, k, v);
    if s.len() == 0 {
    } else if key_lt(k, s[0].0) {
        assert forall|i: int, j: int| 0 <= i < j < r.len() implies key_lt(
            #[trigger] r[i].0,
            #[trigger] r[j].0,
        ) by {
            if i == 0 {
                if j > 1 {
                    lemma_key_lt_transitive(k, s[0].0, s[j - 1].0);
                }
            } else {
                assert(r[i] == s[i - 1] && r[j] == s[j - 1]);
            }
        }
    } else if s[0].0 == k {
        assert forall|i: int, j: int| 0 <= i < j < r.len() implies key_lt(
            #[trigger] r[i].0,
            #[trigger] r[j].0,
        ) by {
            assert(r[i].0 == s[i].0 && r[j].0 == s[j].0);
        }
    } else {
        let t = s.drop_first();
        lemma_obj_insert_sorted(t, k, v);
        lemma_key_lt_total(k, s[0].0);
        assert forall|i: int, j: int| 0 <= i < j < r.len() implies key_lt(
            #[trigger] r[i].0,
            #[trigger] r[j].0,
        ) by {
            if i == 0 {
                lemma_obj_insert_keys(t, k, v, j - 1);
                assert(r[j] == obj_insert(t, k, v)[j - 1]);
                if r[j].0 != k {
                    let m = choose|m: int| 0 <= m < t.len() && t[m].0 == obj_insert(t, k, v)[j - 1].0;
                    assert(s[m + 1].0 == r[j].0);
                }
            } else {
                assert(r[i] == obj_insert(t, k, v)[i - 1]);
                assert(r[j] == obj_insert(t, k, v)[j - 1]);
            }
        }
    }
}

/// Storing under `k` where `p` is the first entry whose key does not come
/// before `k` replaces that entry, where its key is `k`, or puts the new
/// entry before it.
pub proof fn lemma_obj_insert_at(s: Seq<(Seq<char>, JsonV)>, k: Seq<char>, v: JsonV, p: int)
    requires
        0 <= p <= s.len(),
        forall|j: int| 0 <= j < p ==> key_lt(#[trigger] s[j].0, k),
        p < s.len() ==> !key_lt(s[p].0, k),
    ensures
        obj_insert(s, k, v) == (if p < s.len() && s[p].0 == k {
            s.take(p) + seq![(k, v)] + s.skip(p + 1)
        } else {
            s.take(p) + seq![(k, v)] + s.skip(p)
        }),
    decreases p,
{
    if p == 0 {
        assert(s.take(0) =~= Seq::<(Seq<char>, JsonV)>::empty());
        assert(s.skip(0) =~= s);
        if s.len() > 0 {
            lemma_key_lt_total(k, s[0].0);
            lemma_key_lt_irreflexive(k);
            assert(s.skip(1) =~= s.drop_first());
        }
        assert(obj_insert(s, k, v) =~= (if p < s.len() && s[p].0 == k {
            s.take(p) + seq![(k, v)] + s.skip(p + 1)
        } else {
            s.take(p) + seq![(k, v)] + s.skip(p)
        }));
    } else {
        let t = s.drop_first();
        lemma_key_lt_asymmetric(s[0].0, k);
        assert forall|j: int| 0 <= j < p - 1 implies key_lt(#[trigger] t[j].0, k) by {
            assert(t[j] == s[j + 1]);
        }
        lemma_obj_insert_at(t, k, v, p - 1);
        assert(s.take(p) =~= seq![s[0]] + t.take(p - 1));
        assert(s.skip(p) =~= t.skip(p - 1));
        if p < s.len() {
            assert(s.skip(p + 1) =~= t.skip(p));
        }
        assert(obj_insert(s, k, v) =~= (if p < s.len() && s[p].0 == k {
            s.take(p) + seq![(k, v)] + s.skip(p + 1)
        } else {
            s.take(p) + seq![(k, v)] + s.skip(p)
        }));
    }
}

/// In an object whose keys are in order, a read after storing `v` under `k`
/// gives `v` for `k`, and what it gave before for every other key.
pub proof fn lemma_obj_get_insert(s: Seq<(Seq<char>, JsonV)>, k: Seq<char>, v: JsonV, x: Seq<char>)
    requires
        keys_sorted(s),
    ensures
        assoc_get(obj_insert(s, k, v), x) == (if x == k {
            Some(v)
        } else {
            assoc_get(s, x)
        }),
    decreases s.len(),
{
    let r = obj_insert(s, k, v);
    if s.len() == 0 {
        assert(r.drop_first() =~= Seq::<(Seq<char>, JsonV)>::empty());
    } else if key_lt(k, s[0].0) {
        assert(r.drop_first() =~= s);
    } else if s[0].0 == k {
        assert(r.drop_first() =~= s.drop_first());
    } else {
        let t = s.drop_first();
        assert(r.drop_first() =~= obj_insert(t, k, v));
        lemma_obj_get_insert(t, k, v, x);
    }
}

impl JsonMap {
    /// The entries of this object, in order.
    pub closed spec fn view(&self) -> Seq<(Seq<char>, JsonV)>
        decreases self,
    {
        view_entries(self.entries@)
    }

    #[verifier::type_invariant]
    spec fn well_sorted(self) -> bool {
        keys_sorted(view_entries(self.entries@))
    }

    /// An object with no entries.
    pub fn new() -> (m: JsonMap)
        ensures
            m@ == Seq::<(Seq<char>, JsonV)>::empty(),
    {
        let m = JsonMap { entries: Vec::new() };
        proof {
            lemma_view_entries(m.entries@);
            assert(m@ =~= Seq::<(Seq<char>, JsonV)>::empty());
        }
        m
    }

    /// The number of entries.
    pub fn len(&self) -> (n: usize)
        ensures
            n == self@.len(),
    {
        proof {
            lemma_view_entries(self.entries@);
        }
        self.entries.len()
    }

    /// The key of the `i`-th entry.
    pub fn key_at(&self, i: usize) -> (k: &String)
        requires
            i < self@.len(),
        ensures
            k@ == self@[i as int].0,
    {
        proof {
            lemma_view_entries(self.entries@);
        }
        &self.entries[i].0
    }

    /// The value of the `i`-th entry.
    pub fn value_at(&self, i: usize) -> (v: &Json)
        requires
            i < self@.len(),
        ensures
            v@ == self@[i as int].1,
            decreases_to!(*self => *v),
    {
        proof {
            lemma_view_entries(self.entries@);
            assert(decreases_to!(self.entries => self.entries[i as int]));
        }
        &self.entries[i].1
    }

    /// The value stored under `key`, if any.
    pub fn get(&self, key: &str) -> (r: Option<&Json>)
        ensures
            match r {
                Some(v) => assoc_get(self@, key@) == Some(v@),
                None => assoc_get(self@, key@) is None,
            },
    {
        proof {
            lemma_view_entries(self.entries@);
        }
        let n = self.entries.len();
        let mut i: usize = 0;
        while i < n
            invariant
                n == self.entries@.len(),
                n == self@.len(),
                i <= n,
                forall|j: int| 0 <= j < i ==> #[trigger] self@[j].0 != key@,
                forall|j: int| 0 <= j < n ==> #[trigger] self@[j] == (self.entries@[j].0@, self.entries@[j].1@),
            decreases n - i,
        {
            if let KeyOrder::Equal = compare_keys(self.entries[i].0.as_str(), key) {
                proof {
                    lemma_assoc_get_skip(self@, key@, i as int);
                    assert(self@.skip(i as int)[0] == self@[i as int]);
                }
                return Some(&self.entries[i].1);
            }
            i = i + 1;
        }
        proof {
            lemma_assoc_get_skip(self@, key@, n as int);
        }
        None
    }

    /// A copy of this object.
    pub fn deep_copy(&self) -> (r: JsonMap)
        ensures
            r@ == self@,
        decreases self,
    {
        proof {
            use_type_invariant(self);
            lemma_view_entries(self.entries@);
        }
        let n = self.entries.len();
        let mut out: Vec<(String, Json)> = Vec::new();
        let mut i: usize = 0;
        while i < n
            invariant
                n == self.entries@.len(),
                i <= n,
                out@.len() == i,
                forall|j: int|
                    0 <= j < i ==> (#[trigger] out@[j]).0@ == self.entries@[j].0@ && out@[j].1@
                        == self.entries@[j].1@,
            decreases n - i,
        {
            let k = self.entries[i].0.clone();
            let v = self.entries[i].1.deep_copy();
            out.push((k, v));
            i = i + 1;
        }
        proof {
            lemma_view_entries(out@);
            assert(view_entries(out@) =~= view_entries(self.entries@));
        }
        JsonMap { entries: out }
    }

    /// Whether this object and `other` hold the same entries.
    pub fn equals(&self, other: &JsonMap) -> (r: bool)
        ensures
            r == (self@ == other@),
        decreases self,
    {
        proof {
            lemma_view_entries(self.entries@);
            lemma_view_entries(other.entries@);
        }
        let n = self.entries.len();
        if n != other.entries.len() {
            return false;
        }
        let mut i: usize = 0;
        #[verifier::loop_isolation(false)]
        while i < n
            invariant
                n == self.entries@.len(),
                n == other.entries@.len(),
                i <= n,
                forall|j: int| 0 <= j < i ==> (#[trigger] self@[j]) == other@[j],
            decreases n - i,
        {
            if self.entries[i].0 != other.entries[i].0 {
                assert(self@[i as int] != other@[i as int]);
                return false;
            }
            proof {
                assert(decreases_to!(self.entries => self.entries[i as int]));
            }
            if !self.entries[i].1.equals(&other.entries[i].1) {
                assert(self@[i as int] != other@[i as int]);
                return false;
            }
            i = i + 1;
        }
        assert(self@ =~= other@);
        true
    }

    /// Stores each entry of `other`, in order, into this object, and leaves
    /// `other` empty.
    pub fn append(&mut self, other: &mut JsonMap)
        ensures
            final(self)@ == obj_append(old(self)@, old(other)@),
            final(other)@ == Seq::<(Seq<char>, JsonV)>::empty(),
    {
        let ghost s0 = self@;
        let ghost t = other@;
        let n = other.len();
        let mut i: usize = 0;
        assert(t.take(0) =~= Seq::<(Seq<char>, JsonV)>::empty());
        while i < n
            invariant
                n == t.len(),
                t == other@,
                i <= n,
                self@ == obj_append(s0, t.take(i as int)),
            decreases n - i,
        {
            let k = other.key_at(i).clone();
            let v = other.value_at(i).deep_copy();
            self.insert(k, v);
            assert(t.take(i + 1).subrange(0, i as int) =~= t.take(i as int));
            i = i + 1;
        }
        assert(t.take(n as int) =~= t);
        *other = JsonMap::new();
    }

    /// Stores `value` under `key`, replacing any value stored there before.
    pub fn insert(&mut self, key: String, value: Json)
        ensures
            final(self)@ == obj_insert(old(self)@, key@, value@),
            keys_sorted(final(self)@),
    {
        proof {
            use_type_invariant(&*self);
        }
        let ghost old_view = self@;
        let mut entries: Vec<(String, Json)> = Vec::new();
        std::mem::swap(&mut entries, &mut self.entries);
        proof {
            lemma_view_entries(entries@);
            lemma_view_entries(self.entries@);
            assert(view_entries(self.entries@) =~= Seq::<(Seq<char>, JsonV)>::empty());
        }
        let n = entries.len();
        let mut p: usize = 0;
        let mut found = false;
        let mut stop = false;
        while p < n && !stop
            invariant
                n == entries@.len(),
                view_entries(entries@) == old_view,
                old_view.len() == n,
                p <= n,
                forall|j: int| 0 <= j < p ==> key_lt(#[trigger] old_view[j].0, key@),
                stop ==> p < n && !key_lt(old_view[p as int].0, key@),
                found ==> stop && old_view[p as int].0 == key@,
                stop && !found ==> old_view[p as int].0 != key@,
                forall|j: int| 0 <= j < n ==> #[trigger] old_view[j] == (entries@[j].0@, entries@[j].1@),
            decreases 2 * (n - p) + (if stop { 0int } else { 1int }),
        {
            match compare_keys(entries[p].0.as_str(), key.as_str()) {
                KeyOrder::Less => {
                    p = p + 1;
                },
                KeyOrder::Equal => {
                    found = true;
                    stop = true;
                    proof {
                        lemma_key_lt_irreflexive(key@);
                    }
                },
                KeyOrder::Greater => {
                    stop = true;
                    proof {
                        lemma_key_lt_asymmetric(key@, old_view[p as int].0);
                    }
                },
            }
        }
        proof {
            lemma_obj_insert_at(old_view, key@, value@, p as int);
            lemma_obj_insert_sorted(old_view, key@, value@);
        }
        let ghost kv = key@;
        let ghost vv = value@;
        if found {
            entries.remove(p);
        }
        entries.insert(p, (key, value));
        proof {
            lemma_view_entries(entries@);
            assert(view_entries(entries@) =~= obj_insert(old_view, kv, vv));
        }
        self.entries = entries;
        proof {
            use_type_invariant(&*self);
        }
    }
}

/// Lexicographic order on keys, character by character by code point
/// (the order of their UTF-8 bytes).
pub open spec fn key_lt(a: Seq<char>, b: Seq<char>) -> bool
    decreases a.len(),
{
    if a.len() == 0 {
        b.len() > 0
    } else if b.len() == 0 {
        false
    } else if a[0] != b[0] {
        a[0] < b[0]
    } else {
        key_lt(a.drop_first(), b.drop_first())
    }
}

/// No key comes before itself.
pub proof fn lemma_key_lt_irreflexive(a: Seq<char>)
    ensures
        !key_lt(a, a),
    decreases a.len(),
{
    if a.len() > 0 {
        lemma_key_lt_irreflexive(a.drop_first());
    }
}

/// The order of keys is transitive.
pub proof fn lemma_key_lt_transitive(a: Seq<char>, b: Seq<char>, c: Seq<char>)
    requires
        key_lt(a, b),
        key_lt(b, c),
    ensures
        key_lt(a, c),
    decreases a.len(),
{
    if a.len() > 0 && b.len() > 0 && c.len() > 0 && a[0] == b[0] && b[0] == c[0] {
        lemma_key_lt_transitive(a.drop_first(), b.drop_first(), c.drop_first());
    }
}

/// Of two different keys, one comes before the other.
pub proof fn lemma_key_lt_total(a: Seq<char>, b: Seq<char>)
    ensures
        a == b || key_lt(a, b) || key_lt(b, a),
    decreases a.len(),
{
    if a.len() > 0 && b.len() > 0 && a[0] == b[0] {
        lemma_key_lt_total(a.drop_first(), b.drop_first());
        if a.drop_first() == b.drop_first() {
            assert(a =~= seq![a[0]] + a.drop_first());
            assert(b =~= seq![b[0]] + b.drop_first());
        }
    } else if a.len() == 0 && b.len() == 0 {
        assert(a =~= b);
    }
}

/// Of two keys, at most one comes before the other.
pub proof fn lemma_key_lt_asymmetric(a: Seq<char>, b: Seq<char>)
    requires
        key_lt(a, b),
    ensures
        !key_lt(b, a),
        a != b,
{
    lemma_key_lt_irreflexive(a);
    if key_lt(b, a) {
        lemma_key_lt_transitive(a, b, a);
    }
}

/// How two keys compare.
pub enum KeyOrder {
    Less,
    Equal,
    Greater,
}

/// Whether two texts are the same.
pub fn str_equal(a: &str, b: &str) -> (r: bool)
    ensures
        r == (a@ == b@),
{
    match compare_keys(a, b) {
        KeyOrder::Equal => true,
        _ => false,
    }
}

/// Compares two keys in the order `key_lt`.
pub fn compare_keys(a: &str, b: &str) -> (r: KeyOrder)
    ensures
        r is Less <==> key_lt(a@, b@),
        r is Equal <==> a@ == b@,
        r is Greater <==> key_lt(b@, a@),
{
    proof {
        lemma_key_lt_total(a@, b@);
        lemma_key_lt_irreflexive(a@);
        if key_lt(a@, b@) {
            lemma_key_lt_asymmetric(a@, b@);
        }
        if key_lt(b@, a@) {
            lemma_key_lt_asymmetric(b@, a@);
        }
    }
    let la = a.unicode_len();
    let lb = b.unicode_len();
    let mut i: usize = 0;
    assert(a@.skip(0) =~= a@);
    assert(b@.skip(0) =~= b@);
    while i < la && i < lb
        invariant
            la == a@.len(),
            lb == b@.len(),
            i <= la,
            i <= lb,
            a@.subrange(0, i as int) == b@.subrange(0, i as int),
            key_lt(a@, b@) == key_lt(a@.skip(i as int), b@.skip(i as int)),
            key_lt(b@, a@) == key_lt(b@.skip(i as int), a@.skip(i as int)),
        decreases la - i,
    {
        let ca = a.get_char(i);
        let cb = b.get_char(i);
        assert(a@.skip(i as int)[0] == ca);
        assert(b@.skip(i as int)[0] == cb);
        if ca != cb {
            if ca < cb {
                return KeyOrder::Less;
            } else {
                return KeyOrder::Greater;
            }
        }
        assert(a@.skip(i as int).drop_first() =~= a@.skip(i + 1));
        assert(b@.skip(i as int).drop_first() =~= b@.skip(i + 1));
        assert(a@.subrange(0, i + 1) =~= a@.subrange(0, i as int).push(ca));
        assert(b@.subrange(0, i + 1) =~= b@.subrange(0, i as int).push(cb));
        i = i + 1;
    }
    if la == lb {
        assert(a@ =~= a@.subrange(0, i as int));
        assert(b@ =~= b@.subrange(0, i as int));
        KeyOrder::Equal
    } else if la < lb {
        KeyOrder::Less
    } else {
        KeyOrder::Greater
    }
}

} // verus!

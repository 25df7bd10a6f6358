use vstd::prelude::*;
use vstd::string::*;
use crate::assoc::assoc_get;
use crate::json::{obj_append, obj_insert, Json, JsonMap, JsonV, ObjV};

verus! {

/// The position of the first `.` in `k`, if any.
#[verifier::opaque]
pub open spec fn first_dot(k: Seq<char>) -> Option<int> {
    if exists|i: int| 0 <= i < k.len() && k[i] == '.' {
        Some(choose|i: int| 0 <= i < k.len() && k[i] == '.' && forall|j: int| 0 <= j < i ==> k[j] != '.')
    } else {
        None
    }
}

/// The entry that the path `k` selects: a path without a dot selects the
/// column of its name (its value is the name itself); `a.rest` selects,
/// under `a`, the object of the entry that `rest` selects.
pub open spec fn path_entry(k: Seq<char>) -> (Seq<char>, JsonV)
    decreases k.len(),
{
    match first_dot(k) {
        Some(d) => if 0 <= d < k.len() {
            (k.take(d), JsonV::Object(seq![path_entry(k.skip(d + 1))]))
        } else {
            (k, JsonV::Str(k))
        },
        None => (k, JsonV::Str(k)),
    }
}

/// The selector `acc` after the path `k` went into it, or nothing where a
/// path goes on below a column that an earlier path selected whole.
pub open spec fn parse_step(acc: ObjV, k: Seq<char>) -> Option<ObjV> {
    let e = path_entry(k);
    match e.1 {
        JsonV::Object(nested) => match assoc_get(acc, e.0) {
            None => Some(obj_insert(acc, e.0, e.1)),
            Some(JsonV::Object(cur)) => Some(
                obj_insert(acc, e.0, JsonV::Object(obj_insert(cur, nested[0].0, nested[0].1))),
            ),
            Some(_) => None,
        },
        _ => Some(obj_insert(acc, e.0, e.1)),
    }
}

/// The selector that the paths `keys`, one after the other, make.
pub open spec fn parse_paths(keys: Seq<Seq<char>>) -> Option<ObjV>
    decreases keys.len(),
{
    if keys.len() == 0 {
        Some(Seq::empty())
    } else {
        match parse_paths(keys.drop_last()) {
            Some(acc) => parse_step(acc, keys.last()),
            None => None,
        }
    }
}

/// The texts of a list of string slices.
pub open spec fn texts(node: Seq<&str>) -> Seq<Seq<char>> {
    node.map_values(|k: &str| k@)
}

proof fn lemma_first_dot(k: Seq<char>, d: int)
    requires
        0 <= d <= k.len(),
        forall|j: int| 0 <= j < d ==> k[j] != '.',
        d < k.len() ==> k[d] == '.',
    ensures
        d < k.len() ==> first_dot(k) == Some(d),
        d == k.len() ==> first_dot(k) is None,
{
    reveal(first_dot);
    if d < k.len() {
        let c = choose|i: int| 0 <= i < k.len() && k[i] == '.' && forall|j: int| 0 <= j < i ==> k[j] != '.';
        assert(k[d] == '.');
        if c < d {
            assert(k[c] != '.');
        }
        if c > d {
            assert(k[d] != '.');
        }
    }
}

proof fn lemma_path_entry_unfold(k: Seq<char>)
    ensures
        path_entry(k) == (match first_dot(k) {
            Some(d) => if 0 <= d < k.len() {
                (k.take(d), JsonV::Object(seq![path_entry(k.skip(d + 1))]))
            } else {
                (k, JsonV::Str(k))
            },
            None => (k, JsonV::Str(k)),
        }),
{
}

/// A path without a dot selects the column of its name, its value being the
/// name itself; a selector made of that one path holds just that entry.
pub proof fn lemma_path_plain(k: Seq<char>)
    requires
        forall|i: int| 0 <= i < k.len() ==> k[i] != '.',
    ensures
        path_entry(k) == (k, JsonV::Str(k)),
        parse_paths(seq![k]) == Some(seq![(k, JsonV::Str(k))]),
{
    reveal(first_dot);
    lemma_path_entry_unfold(k);
    assert(first_dot(k) is None);
    assert(seq![k].drop_last() =~= Seq::<Seq<char>>::empty());
    assert(seq![k].last() == k);
    assert(obj_insert(Seq::<(Seq<char>, JsonV)>::empty(), k, JsonV::Str(k)) == seq![(k, JsonV::Str(k))]);
    assert(parse_paths(Seq::<Seq<char>>::empty()) == Some(Seq::<(Seq<char>, JsonV)>::empty()));
    assert(parse_step(Seq::<(Seq<char>, JsonV)>::empty(), k) == Some(seq![(k, JsonV::Str(k))]));
}

proof fn lemma_path_entry_shape(k: Seq<char>)
    ensures
        path_entry(k).1 is Str || (path_entry(k).1 matches JsonV::Object(s) && s.len() == 1),
{
}

proof fn lemma_parse_paths_none(keys: Seq<Seq<char>>, i: int)
    requires
        0 <= i <= keys.len(),
        parse_paths(keys.take(i)) is None,
    ensures
        parse_paths(keys) is None,
    decreases keys.len() - i,
{
    if i == keys.len() {
        assert(keys.take(i) =~= keys);
    } else {
        assert(keys.take(i + 1).drop_last() =~= keys.take(i));
        lemma_parse_paths_none(keys, i + 1);
    }
}

/// The position of the first `.` in `k`, or its length where it has none.
fn find_dot(k: &str) -> (r: usize)
    ensures
        r <= k@.len(),
        r < k@.len() ==> first_dot(k@) == Some(r as int),
        r == k@.len() ==> first_dot(k@) is None,
{
    let n = k.unicode_len();
    let mut i: usize = 0;
    while i < n
        invariant
            n == k@.len(),
            i <= n,
            forall|j: int| 0 <= j < i ==> k@[j] != '.',
        decreases n - i,
    {
        if k.get_char(i) == '.' {
            proof {
                lemma_first_dot(k@, i as int);
            }
            return i;
        }
        i = i + 1;
    }
    proof {
        lemma_first_dot(k@, n as int);
    }
    n
}

/// The entry that the path `k` selects.
#[verifier::spinoff_prover]
fn path_entry_of(k: &str) -> (r: (String, Json))
    ensures
        (r.0@, r.1@) == path_entry(k@),
    decreases k@.len(),
{
    proof {
        lemma_path_entry_unfold(k@);
    }
    let n = k.unicode_len();
    let d = find_dot(k);
    if d < n {
        let head = k.substring_char(0, d).to_owned();
        let rest = k.substring_char(d + 1, n);
        let (name, value) = path_entry_of(rest);
        let mut m = JsonMap::new();
        let ghost e = m@;
        m.insert(name, value);
        proof {
            assert(rest@ =~= k@.skip(d + 1));
            assert(head@ =~= k@.take(d as int));
            assert(e.len() == 0);
            assert(m@ == seq![path_entry(k@.skip(d + 1))]);
        }
        (head, Json::Object(m))
    } else {
        (k.to_owned(), Json::Str(k.to_owned()))
    }
}

pub struct SelectParser {}

impl SelectParser {
    /// The selector that the paths `node` make, one after the other, where
    /// no path goes on below a column that an earlier path selected whole.
    pub fn try_parse_selector(node: &Vec<&str>) -> (r: Option<JsonMap>)
        ensures
            match parse_paths(texts(node@)) {
                Some(sel) => r matches Some(m) && m@ == sel,
                None => r is None,
            },
    {
        let ghost keys = texts(node@);
        let mut out = JsonMap::new();
        let n = node.len();
        let mut i: usize = 0;
        assert(keys.take(0) =~= Seq::<Seq<char>>::empty());
        while i < n
            invariant
                n == node@.len(),
                keys == texts(node@),
                i <= n,
                parse_paths(keys.take(i as int)) == Some(out@),
            decreases n - i,
        {
            let key: &str = node[i];
            assert(keys[i as int] == key@);
            assert(keys.take(i + 1).drop_last() =~= keys.take(i as int));
            assert(keys.take(i + 1).last() == key@);
            let (name, value) = path_entry_of(key);
            let ghost acc = out@;
            let ghost ev = value@;
            let ghost nm = name@;
            proof {
                lemma_path_entry_shape(key@);
                assert(parse_paths(keys.take(i + 1)) == parse_step(acc, key@));
            }
            match value {
                Json::Object(nested) => {
                    let existing = match out.get(name.as_str()) {
                        Some(Json::Object(cur)) => Some(Some(cur.deep_copy())),
                        Some(_) => Some(None),
                        None => None,
                    };
                    match existing {
                        None => {
                            out.insert(name, Json::Object(nested));
                            assert(out@ == parse_step(acc, key@).unwrap());
                        },
                        Some(Some(cur)) => {
                            let ghost cv = cur@;
                            let mut merged = cur;
                            let mut nested = nested;
                            let ghost nv = nested@;
                            proof {
                                assert(nv.len() == 1);
                                assert(obj_insert(Seq::<(Seq<char>, JsonV)>::empty(), nv[0].0, nv[0].1) == seq![nv[0]]);
                            }
                            merged.append(&mut nested);
                            proof {
                                let empty = Seq::<(Seq<char>, JsonV)>::empty();
                                assert(nv.subrange(0, nv.len() - 1) =~= empty);
                                assert(obj_append(cv, empty) == cv);
                                assert(obj_append(cv, nv) == obj_insert(obj_append(cv, nv.subrange(0, nv.len() - 1)), nv[0].0, nv[0].1));
                            }
                            assert(merged@ == obj_insert(cv, nv[0].0, nv[0].1));
                            out.insert(name, Json::Object(merged));
                            assert(out@ == parse_step(acc, key@).unwrap());
                        },
                        Some(None) => {
                            proof {
                                lemma_parse_paths_none(keys, i + 1);
                            }
                            return None;
                        },
                    }
                },
                _ => {
                    out.insert(name, value);
                    assert(out@ == parse_step(acc, key@).unwrap());
                },
            }
            i = i + 1;
        }
        assert(keys.take(n as int) =~= keys);
        Some(out)
    }

    /// The selector that the paths `node` make, one after the other: a path
    /// without a dot selects the column of its name, and `a.b.c` selects
    /// `c` below `b` below `a`.
    pub fn parse_selector_recursive(node: Vec<&str>) -> (r: Json)
        requires
            parse_paths(texts(node@)) is Some,
        ensures
            r@ == JsonV::Object(parse_paths(texts(node@)).unwrap()),
    {
        match SelectParser::try_parse_selector(&node) {
            Some(m) => Json::Object(m),
            None => Json::Null,
        }
    }
}

} // verus!

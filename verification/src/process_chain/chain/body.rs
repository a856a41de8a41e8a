//! Reading and editing request bodies by path.
//!
//! A path is either dotted with bracketed indices (`a.b[0].c`) or
//! POSIX-like (`/a/b/0/c`). JSON and TOML documents are held as
//! [`DocValue`] trees whose leaves keep their text; XML documents as
//! [`Element`] trees.
use vstd::prelude::*;
use crate::text::{
    Sep, chars_eq, chars_of, parse_usize, parse_usize_spec, split_chars_nonempty, split_nonempty,
    owned, string_of_all, views, decimal, push_decimal,
};
use vstd::string::StringExecFns;

verus! {

broadcast use vstd::std_specs::vec::group_vec_axioms;

/// A JSON or TOML document: tables (JSON objects), arrays, and scalar
/// leaves, each leaf held as its text in the document's own syntax.
pub enum DocValue {
    Table(Vec<(String, DocValue)>),
    Array(Vec<DocValue>),
    Scalar(String),
}

/// A JSON document; each leaf holds its JSON text.
pub struct JsonValue(pub DocValue);

/// A TOML document; each leaf holds its TOML text.
pub struct TomlValue(pub DocValue);

impl View for JsonValue {
    type V = DocModel;

    open spec fn view(&self) -> DocModel {
        self.0@
    }
}

impl View for TomlValue {
    type V = DocModel;

    open spec fn view(&self) -> DocModel {
        self.0@
    }
}

/// The mathematical form of a [`DocValue`].
pub enum DocModel {
    Table(Seq<(Seq<char>, DocModel)>),
    Array(Seq<DocModel>),
    Scalar(Seq<char>),
}

impl DocValue {
    pub open spec fn model(&self) -> DocModel
        decreases self,
    {
        match self {
            DocValue::Table(v) => DocModel::Table(entries_model(v@)),
            DocValue::Array(v) => DocModel::Array(items_model(v@)),
            DocValue::Scalar(s) => DocModel::Scalar(s@),
        }
    }
}

impl View for DocValue {
    type V = DocModel;

    open spec fn view(&self) -> DocModel {
        self.model()
    }
}

/// The models of the entries of a table.
pub open spec fn entries_model(v: Seq<(String, DocValue)>) -> Seq<(Seq<char>, DocModel)>
    decreases v,
{
    Seq::new(
        v.len(),
        |i: int|
            if 0 <= i < v.len() {
                (v[i].0@, v[i].1.model())
            } else {
                (Seq::empty(), DocModel::Scalar(Seq::empty()))
            },
    )
}

/// The models of the items of an array.
pub open spec fn items_model(v: Seq<DocValue>) -> Seq<DocModel>
    decreases v,
{
    Seq::new(
        v.len(),
        |i: int|
            if 0 <= i < v.len() {
                v[i].model()
            } else {
                DocModel::Scalar(Seq::empty())
            },
    )
}

/// The position of the first occurrence of `k` in `keys`, or -1.
pub open spec fn first_index(keys: Seq<Seq<char>>, k: Seq<char>) -> int
    decreases keys.len(),
{
    if keys.len() == 0 {
        -1
    } else {
        let p = first_index(keys.drop_last(), k);
        if p >= 0 {
            p
        } else if keys.last() == k {
            keys.len() - 1
        } else {
            -1
        }
    }
}

/// The keys of a table's entries.
pub open spec fn entry_keys(es: Seq<(Seq<char>, DocModel)>) -> Seq<Seq<char>> {
    es.map_values(|e: (Seq<char>, DocModel)| e.0)
}

/// The position of the entry that key `k` selects in a table, or -1.
pub open spec fn lookup(es: Seq<(Seq<char>, DocModel)>, k: Seq<char>) -> int {
    first_index(entry_keys(es), k)
}

/// Lemma: `first_index` is the first position holding `k`, and -1 exactly
/// when no position holds it.
pub proof fn lemma_first_index(s: Seq<Seq<char>>, k: Seq<char>)
    ensures
        -1 <= first_index(s, k) < s.len(),
        first_index(s, k) == -1 <==> (forall|j: int| 0 <= j < s.len() ==> s[j] != k),
        first_index(s, k) >= 0 ==> s[first_index(s, k)] == k && (forall|j: int|
            0 <= j < first_index(s, k) ==> s[j] != k),
    decreases s.len(),
{
    if s.len() > 0 {
        lemma_first_index(s.drop_last(), k);
        let p = first_index(s.drop_last(), k);
        if p >= 0 {
            assert(s.drop_last()[p] == s[p]);
            assert forall|j: int| 0 <= j < p implies s[j] != k by {
                assert(s.drop_last()[j] == s[j]);
            }
        }
        if first_index(s.drop_last(), k) == -1 {
            assert forall|j: int| 0 <= j < s.len() - 1 implies s[j] != k by {
                assert(s.drop_last()[j] == s[j]);
            }
        }
    }
}

/// The path separated into its parts: POSIX-like when it starts with
/// `'/'`, dotted with bracketed indices otherwise; empty parts are dropped.
pub open spec fn path_parts(p: Seq<char>) -> Seq<Seq<char>> {
    if p.len() > 0 && p[0] == '/' {
        split_nonempty(p, Sep::Slash)
    } else {
        split_nonempty(p, Sep::PathPunct)
    }
}

/// Why a path cannot be followed: the part at the position given is not
/// a valid array index, or the value reached there holds no children.
#[derive(Clone, Copy, PartialEq, Eq, Debug)]
pub enum PathFault {
    BadIndex(usize),
    NotContainer(usize),
}

/// What reading at `parts[i..]` from `d` gives: the value reached (the
/// first scalar met stops the walk), `None` when a key or an index is
/// missing, or the position of a part that is no valid array index.
pub open spec fn doc_get(d: DocModel, parts: Seq<Seq<char>>, i: int) -> Result<
    Option<DocModel>,
    usize,
>
    decreases parts.len() - i,
{
    if i < 0 || i >= parts.len() {
        Ok(Some(d))
    } else {
        match d {
            DocModel::Table(es) => {
                let k = lookup(es, parts[i]);
                if k < 0 {
                    Ok(None)
                } else {
                    doc_get(es[k].1, parts, i + 1)
                }
            },
            DocModel::Array(a) => match parse_usize_spec(parts[i]) {
                None => Err(i as usize),
                Some(n) => if n < a.len() {
                    doc_get(a[n as int], parts, i + 1)
                } else {
                    Ok(None)
                },
            },
            DocModel::Scalar(_) => Ok(Some(d)),
        }
    }
}

/// A table with `k` set to `v`: the entry of `k` is replaced in place, or
/// a new entry is added at the end.
pub open spec fn table_insert(es: Seq<(Seq<char>, DocModel)>, k: Seq<char>, v: DocModel) -> Seq<
    (Seq<char>, DocModel),
> {
    let p = lookup(es, k);
    if p >= 0 {
        es.update(p, (k, v))
    } else {
        es.push((k, v))
    }
}

/// An array grown with empty tables until it has a position `n`.
pub open spec fn pad(a: Seq<DocModel>, n: int) -> Seq<DocModel> {
    if n < a.len() {
        a
    } else {
        a + Seq::new((n + 1 - a.len()) as nat, |j: int| DocModel::Table(Seq::empty()))
    }
}

/// What writing `v` at `parts[i..]` into `d` gives. Missing keys on the
/// way get empty tables; arrays are padded with empty tables up to an
/// index on the way; at the last part an existing entry or item is
/// replaced, and an index past the end appends.
pub open spec fn doc_set(d: DocModel, parts: Seq<Seq<char>>, i: int, v: DocModel) -> Result<
    DocModel,
    PathFault,
>
    decreases parts.len() - i,
{
    if i < 0 || i >= parts.len() {
        Ok(d)
    } else {
        let last = i == parts.len() - 1;
        match d {
            DocModel::Table(es) => if last {
                Ok(DocModel::Table(table_insert(es, parts[i], v)))
            } else {
                let p = lookup(es, parts[i]);
                let child = if p >= 0 {
                    es[p].1
                } else {
                    DocModel::Table(Seq::empty())
                };
                match doc_set(child, parts, i + 1, v) {
                    Ok(c) => Ok(DocModel::Table(table_insert(es, parts[i], c))),
                    Err(f) => Err(f),
                }
            },
            DocModel::Array(a) => match parse_usize_spec(parts[i]) {
                None => Err(PathFault::BadIndex(i as usize)),
                Some(n) => if last {
                    Ok(
                        DocModel::Array(
                            if n < a.len() {
                                a.update(n as int, v)
                            } else {
                                a.push(v)
                            },
                        ),
                    )
                } else {
                    let a2 = pad(a, n as int);
                    match doc_set(a2[n as int], parts, i + 1, v) {
                        Ok(c) => Ok(DocModel::Array(a2.update(n as int, c))),
                        Err(f) => Err(f),
                    }
                },
            },
            DocModel::Scalar(_) => Err(PathFault::NotContainer(i as usize)),
        }
    }
}

/// What removing at `parts[i..]` from `d` gives: the new document and the
/// removed value, `None` (and no change) when a key or an index is
/// missing, or the fault.
pub open spec fn doc_remove(d: DocModel, parts: Seq<Seq<char>>, i: int) -> Result<
    (DocModel, Option<DocModel>),
    PathFault,
>
    decreases parts.len() - i,
{
    if i < 0 || i >= parts.len() {
        Ok((d, None))
    } else {
        let last = i == parts.len() - 1;
        match d {
            DocModel::Table(es) => {
                let p = lookup(es, parts[i]);
                if p < 0 {
                    Ok((d, None))
                } else if last {
                    Ok((DocModel::Table(es.remove(p)), Some(es[p].1)))
                } else {
                    match doc_remove(es[p].1, parts, i + 1) {
                        Ok((c, r)) => Ok((DocModel::Table(es.update(p, (es[p].0, c))), r)),
                        Err(f) => Err(f),
                    }
                }
            },
            DocModel::Array(a) => match parse_usize_spec(parts[i]) {
                None => Err(PathFault::BadIndex(i as usize)),
                Some(n) => if n >= a.len() {
                    Ok((d, None))
                } else if last {
                    Ok((DocModel::Array(a.remove(n as int)), Some(a[n as int])))
                } else {
                    match doc_remove(a[n as int], parts, i + 1) {
                        Ok((c, r)) => Ok((DocModel::Array(a.update(n as int, c)), r)),
                        Err(f) => Err(f),
                    }
                },
            },
            DocModel::Scalar(_) => Err(PathFault::NotContainer(i as usize)),
        }
    }
}

/// No two entries of a table have the same key.
pub open spec fn keys_distinct(es: Seq<(Seq<char>, DocModel)>) -> bool {
    forall|a: int, b: int| 0 <= a < b < es.len() ==> (#[trigger] es[a]).0 != (#[trigger] es[b]).0
}

/// A well-formed document: in every table, at any depth, no two entries
/// have the same key, as in a JSON object or a TOML table.
pub open spec fn doc_wf(d: DocModel) -> bool
    decreases d,
{
    match d {
        DocModel::Table(es) => keys_distinct(es) && forall|j: int|
            #![trigger es[j]]
            0 <= j < es.len() ==> doc_wf(es[j].1),
        DocModel::Array(a) => forall|j: int| #![trigger a[j]] 0 <= j < a.len() ==> doc_wf(a[j]),
        DocModel::Scalar(_) => true,
    }
}

/// Lemma: setting a key of a well-formed table to a well-formed value
/// keeps it well-formed.
pub proof fn lemma_table_insert_wf(es: Seq<(Seq<char>, DocModel)>, k: Seq<char>, v: DocModel)
    requires
        doc_wf(DocModel::Table(es)),
        doc_wf(v),
    ensures
        doc_wf(DocModel::Table(table_insert(es, k, v))),
{
    let p = lookup(es, k);
    lemma_first_index(entry_keys(es), k);
    let es2 = table_insert(es, k, v);
    if p >= 0 {
        assert(entry_keys(es)[p] == k);
        assert forall|a: int, b: int| 0 <= a < b < es2.len() implies (#[trigger] es2[a]).0 != (
        #[trigger] es2[b]).0 by {
            assert(es[a].0 == entry_keys(es)[a]);
            assert(es[b].0 == entry_keys(es)[b]);
            assert(es[a] == es2[a] || a == p);
            assert(es[b] == es2[b] || b == p);
            if a == p {
                assert(es2[a].0 == es[a].0);
            }
            if b == p {
                assert(es2[b].0 == es[b].0);
            }
            assert(es[a].0 != es[b].0);
        }
        assert forall|j: int| 0 <= j < es2.len() implies #[trigger] doc_wf(es2[j].1) by {
            if j != p {
                assert(doc_wf(es[j].1));
            }
        }
    } else {
        assert forall|a: int, b: int| 0 <= a < b < es2.len() implies (#[trigger] es2[a]).0 != (
        #[trigger] es2[b]).0 by {
            if b == es.len() {
                assert(entry_keys(es)[a] != k);
                assert(es[a].0 == entry_keys(es)[a]);
            } else {
                assert(es[a].0 != es[b].0);
            }
        }
        assert forall|j: int| 0 <= j < es2.len() implies #[trigger] doc_wf(es2[j].1) by {
            if j < es.len() {
                assert(doc_wf(es[j].1));
            }
        }
    }
}

/// Lemma: the value a read gives inside a well-formed document is
/// well-formed.
pub proof fn lemma_get_wf(d: DocModel, ps: Seq<Seq<char>>, i: int)
    requires
        doc_wf(d),
    ensures
        doc_get(d, ps, i) matches Ok(Some(m)) ==> doc_wf(m),
    decreases ps.len() - i,
{
    if 0 <= i < ps.len() {
        match d {
            DocModel::Table(es) => {
                let p = lookup(es, ps[i]);
                lemma_first_index(entry_keys(es), ps[i]);
                if p >= 0 {
                    assert(doc_wf(es[p].1));
                    lemma_get_wf(es[p].1, ps, i + 1);
                }
            },
            DocModel::Array(a) => {
                if let Some(n) = parse_usize_spec(ps[i]) {
                    if n < a.len() {
                        assert(doc_wf(a[n as int]));
                        lemma_get_wf(a[n as int], ps, i + 1);
                    }
                }
            },
            DocModel::Scalar(_) => {},
        }
    }
}

/// Lemma: writing a well-formed value into a well-formed document gives
/// a well-formed document.
#[verifier::spinoff_prover]
pub proof fn lemma_set_wf(d: DocModel, ps: Seq<Seq<char>>, i: int, v: DocModel)
    requires
        doc_wf(d),
        doc_wf(v),
    ensures
        doc_set(d, ps, i, v) matches Ok(m) ==> doc_wf(m),
    decreases ps.len() - i,
{
    if 0 <= i < ps.len() {
        let last = i == ps.len() - 1;
        match d {
            DocModel::Table(es) => {
                if last {
                    lemma_table_insert_wf(es, ps[i], v);
                } else {
                    let p = lookup(es, ps[i]);
                    lemma_first_index(entry_keys(es), ps[i]);
                    let child = if p >= 0 {
                        es[p].1
                    } else {
                        DocModel::Table(Seq::empty())
                    };
                    assert(doc_wf(child));
                    lemma_set_wf(child, ps, i + 1, v);
                    if let Ok(c) = doc_set(child, ps, i + 1, v) {
                        lemma_table_insert_wf(es, ps[i], c);
                    }
                }
            },
            DocModel::Array(a) => {
                if let Some(n) = parse_usize_spec(ps[i]) {
                    if last {
                        let a2 = if n < a.len() {
                            a.update(n as int, v)
                        } else {
                            a.push(v)
                        };
                        assert forall|j: int| 0 <= j < a2.len() implies #[trigger] doc_wf(a2[j]) by {
                            if j != n && j < a.len() {
                                assert(doc_wf(a[j]));
                            }
                        }
                    } else {
                        let a2 = pad(a, n as int);
                        assert forall|j: int| 0 <= j < a2.len() implies #[trigger] doc_wf(a2[j]) by {
                            if j < a.len() {
                                assert(doc_wf(a[j]));
                            } else {
                                assert(a2[j] == DocModel::Table(Seq::empty()));
                            }
                        }
                        lemma_set_wf(a2[n as int], ps, i + 1, v);
                        if let Ok(c) = doc_set(a2[n as int], ps, i + 1, v) {
                            let a3 = a2.update(n as int, c);
                            assert forall|j: int| 0 <= j < a3.len() implies #[trigger] doc_wf(
                                a3[j],
                            ) by {
                                if j != n {
                                    assert(doc_wf(a2[j]));
                                }
                            }
                            assert(forall|j: int| #![trigger a3[j]] 0 <= j < a3.len() ==> doc_wf(a3[j]));
                        }
                    }
                }
            },
            DocModel::Scalar(_) => {},
        }
    }
}

/// Lemma: removing from a well-formed document leaves it well-formed, and
/// the value removed is well-formed.
pub proof fn lemma_remove_wf(d: DocModel, ps: Seq<Seq<char>>, i: int)
    requires
        doc_wf(d),
    ensures
        doc_remove(d, ps, i) matches Ok((m, x)) ==> doc_wf(m) && (x matches Some(y) ==> doc_wf(
            y,
        )),
    decreases ps.len() - i,
{
    if 0 <= i < ps.len() {
        let last = i == ps.len() - 1;
        match d {
            DocModel::Table(es) => {
                let p = lookup(es, ps[i]);
                lemma_first_index(entry_keys(es), ps[i]);
                if p >= 0 {
                    assert(doc_wf(es[p].1));
                    if last {
                        let es2 = es.remove(p);
                        assert forall|a: int, b: int| 0 <= a < b < es2.len() implies (
                        #[trigger] es2[a]).0 != (#[trigger] es2[b]).0 by {
                            let a1 = if a < p {
                                a
                            } else {
                                a + 1
                            };
                            let b1 = if b < p {
                                b
                            } else {
                                b + 1
                            };
                            assert(es2[a] == es[a1]);
                            assert(es2[b] == es[b1]);
                            assert(es[a1].0 != es[b1].0);
                        }
                        assert forall|j: int| 0 <= j < es2.len() implies #[trigger] doc_wf(
                            es2[j].1,
                        ) by {
                            if j < p {
                                assert(doc_wf(es[j].1));
                            } else {
                                assert(es2[j] == es[j + 1]);
                                assert(doc_wf(es[j + 1].1));
                            }
                        }
                    } else {
                        lemma_remove_wf(es[p].1, ps, i + 1);
                        if let Ok((c, r)) = doc_remove(es[p].1, ps, i + 1) {
                            let es2 = es.update(p, (es[p].0, c));
                            assert forall|a: int, b: int| 0 <= a < b < es2.len() implies (
                            #[trigger] es2[a]).0 != (#[trigger] es2[b]).0 by {
                                assert(es2[a].0 == es[a].0);
                                assert(es2[b].0 == es[b].0);
                                assert(es[a].0 != es[b].0);
                            }
                            assert forall|j: int| 0 <= j < es2.len() implies #[trigger] doc_wf(
                                es2[j].1,
                            ) by {
                                if j != p {
                                    assert(doc_wf(es[j].1));
                                }
                            }
                        }
                    }
                }
            },
            DocModel::Array(a) => {
                if let Some(n) = parse_usize_spec(ps[i]) {
                    if n < a.len() {
                        assert(doc_wf(a[n as int]));
                        if last {
                            let a2 = a.remove(n as int);
                            assert forall|j: int| 0 <= j < a2.len() implies #[trigger] doc_wf(
                                a2[j],
                            ) by {
                                if j < n {
                                    assert(doc_wf(a[j]));
                                } else {
                                    assert(a2[j] == a[j + 1]);
                                    assert(doc_wf(a[j + 1]));
                                }
                            }
                        } else {
                            lemma_remove_wf(a[n as int], ps, i + 1);
                            if let Ok((c, r)) = doc_remove(a[n as int], ps, i + 1) {
                                let a2 = a.update(n as int, c);
                                assert forall|j: int| 0 <= j < a2.len() implies #[trigger] doc_wf(
                                    a2[j],
                                ) by {
                                    if j != n {
                                        assert(doc_wf(a[j]));
                                    }
                                }
                            }
                        }
                    }
                }
            },
            DocModel::Scalar(_) => {},
        }
    }
}

impl DocValue {
    /// A copy of the whole tree.
    pub fn deep_copy(&self) -> (r: DocValue)
        ensures
            r@ == self@,
        decreases self,
    {
        match self {
            DocValue::Table(es) => {
                let mut out: Vec<(String, DocValue)> = Vec::new();
                let mut i: usize = 0;
                while i < es.len()
                    invariant
                        *self == DocValue::Table(*es),
                        i <= es.len(),
                        out.len() == i,
                        forall|j: int|
                            0 <= j < i ==> #[trigger] out@[j].0@ == es@[j].0@ && out@[j].1@
                                == es@[j].1@,
                    decreases es.len() - i,
                {
                    let k = es[i].0.clone();
                    proof {
                        let ghost e = es@[i as int];
                        assert(decreases_to!(*self => self->Table_0));
                        assert(decreases_to!(*es => es@));
                        assert(decreases_to!(es@ => e));
                        assert(decreases_to!(e => e.1));
                    }
                    let v = es[i].1.deep_copy();
                    out.push((k, v));
                    i = i + 1;
                }
                let r = DocValue::Table(out);
                assert(entries_model(out@) =~= entries_model(es@));
                r
            },
            DocValue::Array(a) => {
                let mut out: Vec<DocValue> = Vec::new();
                let mut i: usize = 0;
                while i < a.len()
                    invariant
                        *self == DocValue::Array(*a),
                        i <= a.len(),
                        out.len() == i,
                        forall|j: int| 0 <= j < i ==> #[trigger] out@[j]@ == a@[j]@,
                    decreases a.len() - i,
                {
                    proof {
                        assert(decreases_to!(*self => self->Array_0));
                        assert(decreases_to!(*a => a@));
                        assert(decreases_to!(a@ => a@[i as int]));
                    }
                    let v = a[i].deep_copy();
                    out.push(v);
                    i = i + 1;
                }
                let r = DocValue::Array(out);
                assert forall|j: int| 0 <= j < a@.len() implies items_model(out@)[j] == items_model(
                    a@,
                )[j] by {
                    assert(out@[j]@ == a@[j]@);
                }
                assert(items_model(out@) =~= items_model(a@));
                r
            },
            DocValue::Scalar(s) => DocValue::Scalar(s.clone()),
        }
    }
}

/// Splits a path into its parts.
pub struct PathParser {}

impl PathParser {
    /// The parts of `path`, POSIX-like when it starts with `'/'`.
    pub fn parse_path(path: &Vec<char>) -> (r: Vec<Vec<char>>)
        ensures
            views(r@) == path_parts(path@),
    {
        if path.len() > 0 && path[0] == '/' {
            Self::parse_posix_path(path)
        } else {
            Self::parse_normal_path(path)
        }
    }

    /// The parts of a dotted path such as `a.[0].c`.
    pub fn parse_normal_path(path: &Vec<char>) -> (r: Vec<Vec<char>>)
        ensures
            views(r@) == split_nonempty(path@, Sep::PathPunct),
    {
        split_chars_nonempty(path, Sep::PathPunct)
    }

    /// The parts of a POSIX-like path such as `/a/0/c`.
    pub fn parse_posix_path(path: &Vec<char>) -> (r: Vec<Vec<char>>)
        requires
            path@.len() > 0 && path@[0] == '/',
        ensures
            views(r@) == split_nonempty(path@, Sep::Slash),
    {
        split_chars_nonempty(path, Sep::Slash)
    }
}

/// The position of the entry keyed `k`, if any.
pub fn find_entry(es: &Vec<(String, DocValue)>, k: &Vec<char>) -> (r: Option<usize>)
    ensures
        r matches Some(p) ==> p == lookup(entries_model(es@), k@) && p < es@.len() && es@[p as int].0@ == k@,
        r is None ==> lookup(entries_model(es@), k@) == -1,
{
    let ghost keys = entry_keys(entries_model(es@));
    proof {
        lemma_first_index(keys, k@);
    }
    let mut i: usize = 0;
    while i < es.len()
        invariant
            i <= es.len(),
            keys == entry_keys(entries_model(es@)),
            keys.len() == es.len(),
            forall|j: int| 0 <= j < i ==> keys[j] != k@,
        decreases es.len() - i,
    {
        let key = chars_of(es[i].0.as_str());
        assert(keys[i as int] == es@[i as int].0@);
        if chars_eq(&key, k) {
            assert(first_index(keys, k@) == i as int) by {
                lemma_first_index(keys, k@);
                if first_index(keys, k@) < i {
                    assert(keys[first_index(keys, k@)] != k@);
                }
            }
            return Some(i);
        }
        i = i + 1;
    }
    None
}

/// Follows `parts` through `d` for reading.
pub fn doc_get_exec(d: &DocValue, parts: &Vec<Vec<char>>) -> (r: Result<Option<DocValue>, usize>)
    ensures
        match r {
            Ok(Some(v)) => doc_get(d@, views(parts@), 0) == Ok::<Option<DocModel>, usize>(
                Some(v@),
            ),
            Ok(None) => doc_get(d@, views(parts@), 0) == Ok::<Option<DocModel>, usize>(None),
            Err(p) => doc_get(d@, views(parts@), 0) == Err::<Option<DocModel>, usize>(p),
        },
{
    let ghost ps = views(parts@);
    let mut cur: &DocValue = d;
    let mut i: usize = 0;
    while i < parts.len()
        invariant
            i <= parts.len(),
            ps == views(parts@),
            doc_get(d@, ps, 0) == doc_get(cur@, ps, i as int),
        decreases parts.len() - i,
    {
        match cur {
            DocValue::Table(es) => {
                assert(cur@ == DocModel::Table(entries_model(es@)));
                match find_entry(es, &parts[i]) {
                    Some(p) => {
                        cur = &es[p].1;
                    },
                    None => {
                        return Ok(None);
                    },
                }
            },
            DocValue::Array(a) => {
                assert(cur@ == DocModel::Array(items_model(a@)));
                let part = &parts[i];
                assert(part@.subrange(0, part@.len() as int) =~= part@);
                match parse_usize(part, 0, part.len()) {
                    Some(n) => {
                        if n < a.len() {
                            cur = &a[n];
                        } else {
                            return Ok(None);
                        }
                    },
                    None => {
                        return Err(i);
                    },
                }
            },
            DocValue::Scalar(_) => {
                return Ok(Some(cur.deep_copy()));
            },
        }
        i = i + 1;
    }
    Ok(Some(cur.deep_copy()))
}

/// Writes `v` at `parts[i..]` into `d`; gives back the new document, or
/// on a fault the document as it was.
pub fn doc_set_exec(d: DocValue, parts: &Vec<Vec<char>>, i: usize, v: DocValue) -> (r: (
    DocValue,
    Result<(), PathFault>,
))
    requires
        i < parts.len(),
    ensures
        match r.1 {
            Ok(()) => doc_set(d@, views(parts@), i as int, v@) == Ok::<DocModel, PathFault>(r.0@),
            Err(f) => r.0@ == d@ && doc_set(d@, views(parts@), i as int, v@) == Err::<
                DocModel,
                PathFault,
            >(f),
        },
    decreases parts.len() - i,
{
    let ghost ps = views(parts@);
    let ghost dm = d@;
    let ghost vm = v@;
    let last = i + 1 == parts.len();
    match d {
        DocValue::Table(mut es) => {
            let ghost em = entries_model(es@);
            assert(dm == DocModel::Table(em));
            let found = find_entry(&es, &parts[i]);
            if last {
                let key = string_of_all(&parts[i]);
                match found {
                    Some(p) => {
                        es.set(p, (key, v));
                        assert(entries_model(es@) =~= table_insert(em, ps[i as int], vm));
                    },
                    None => {
                        es.push((key, v));
                        assert(entries_model(es@) =~= table_insert(em, ps[i as int], vm));
                    },
                }
                return (DocValue::Table(es), Ok(()));
            }
            match found {
                Some(p) => {
                    let (kstr, child) = es.remove(p);
                    assert(child@ == em[p as int].1);
                    let (c2, r) = doc_set_exec(child, parts, i + 1, v);
                    let ghost cm = c2@;
                    es.insert(p, (kstr, c2));
                    match r {
                        Ok(()) => {
                            assert(entries_model(es@) =~= table_insert(em, ps[i as int], cm));
                        },
                        Err(f) => {
                            assert(entries_model(es@) =~= em);
                        },
                    }
                    (DocValue::Table(es), r)
                },
                None => {
                    let empty: Vec<(String, DocValue)> = Vec::new();
                    let fresh = DocValue::Table(empty);
                    assert(fresh@ == DocModel::Table(Seq::empty())) by {
                        assert(entries_model(empty@) =~= Seq::empty());
                    }
                    let (c2, r) = doc_set_exec(fresh, parts, i + 1, v);
                    match r {
                        Ok(()) => {
                            let key = string_of_all(&parts[i]);
                            let ghost cm = c2@;
                            es.push((key, c2));
                            assert(entries_model(es@) =~= table_insert(em, ps[i as int], cm));
                            (DocValue::Table(es), Ok(()))
                        },
                        Err(f) => (DocValue::Table(es), Err(f)),
                    }
                },
            }
        },
        DocValue::Array(mut a) => {
            let ghost am = items_model(a@);
            assert(dm == DocModel::Array(am));
            let part = &parts[i];
            assert(part@.subrange(0, part@.len() as int) =~= part@);
            match parse_usize(part, 0, part.len()) {
                None => (DocValue::Array(a), Err(PathFault::BadIndex(i))),
                Some(n) => {
                    if last {
                        if n < a.len() {
                            a.set(n, v);
                            assert(items_model(a@) =~= am.update(n as int, vm));
                        } else {
                            a.push(v);
                            assert(items_model(a@) =~= am.push(vm));
                        }
                        (DocValue::Array(a), Ok(()))
                    } else if n < a.len() {
                        let child = a.remove(n);
                        assert(child@ == am[n as int]);
                        assert(pad(am, n as int) == am);
                        let (c2, r) = doc_set_exec(child, parts, i + 1, v);
                        let ghost cm = c2@;
                        a.insert(n, c2);
                        match r {
                            Ok(()) => {
                                assert(items_model(a@) =~= am.update(n as int, cm));
                            },
                            Err(f) => {
                                assert(items_model(a@) =~= am);
                            },
                        }
                        (DocValue::Array(a), r)
                    } else {
                        let empty: Vec<(String, DocValue)> = Vec::new();
                        let fresh = DocValue::Table(empty);
                        assert(fresh@ == DocModel::Table(Seq::empty())) by {
                            assert(entries_model(empty@) =~= Seq::empty());
                        }
                        assert(pad(am, n as int)[n as int] == DocModel::Table(Seq::empty()));
                        let (c2, r) = doc_set_exec(fresh, parts, i + 1, v);
                        match r {
                            Ok(()) => {
                                let ghost cm = c2@;
                                while a.len() < n
                                    invariant
                                        am.len() <= a.len() <= n,
                                        items_model(a@) == pad(am, n as int).take(a.len() as int),
                                    decreases n - a.len(),
                                {
                                    let e: Vec<(String, DocValue)> = Vec::new();
                                    let t = DocValue::Table(e);
                                    assert(t@ == DocModel::Table(Seq::empty())) by {
                                        assert(entries_model(e@) =~= Seq::empty());
                                    }
                                    a.push(t);
                                    assert(items_model(a@) =~= pad(am, n as int).take(
                                        a.len() as int,
                                    ));
                                }
                                let ghost before = items_model(a@);
                                a.push(c2);
                                assert(items_model(a@) =~= before.push(cm));
                                assert(items_model(a@) =~= pad(am, n as int).update(n as int, cm));
                                (DocValue::Array(a), Ok(()))
                            },
                            Err(f) => (DocValue::Array(a), Err(f)),
                        }
                    }
                },
            }
        },
        DocValue::Scalar(s) => (DocValue::Scalar(s), Err(PathFault::NotContainer(i))),
    }
}

/// Removes at `parts[i..]` from `d`; gives back the new document and the
/// removed value, or on a fault the document as it was.
pub fn doc_remove_exec(d: DocValue, parts: &Vec<Vec<char>>, i: usize) -> (r: (
    DocValue,
    Result<Option<DocValue>, PathFault>,
))
    requires
        i < parts.len(),
    ensures
        match r.1 {
            Ok(Some(x)) => doc_remove(d@, views(parts@), i as int) == Ok::<
                (DocModel, Option<DocModel>),
                PathFault,
            >((r.0@, Some(x@))),
            Ok(None) => doc_remove(d@, views(parts@), i as int) == Ok::<
                (DocModel, Option<DocModel>),
                PathFault,
            >((r.0@, None)),
            Err(f) => r.0@ == d@ && doc_remove(d@, views(parts@), i as int) == Err::<
                (DocModel, Option<DocModel>),
                PathFault,
            >(f),
        },
    decreases parts.len() - i,
{
    let ghost ps = views(parts@);
    let ghost dm = d@;
    let last = i + 1 == parts.len();
    match d {
        DocValue::Table(mut es) => {
            let ghost em = entries_model(es@);
            assert(dm == DocModel::Table(em));
            match find_entry(&es, &parts[i]) {
                None => (DocValue::Table(es), Ok(None)),
                Some(p) => {
                    let (kstr, child) = es.remove(p);
                    assert(child@ == em[p as int].1);
                    if last {
                        assert(entries_model(es@) =~= em.remove(p as int));
                        return (DocValue::Table(es), Ok(Some(child)));
                    }
                    let (c2, r) = doc_remove_exec(child, parts, i + 1);
                    let ghost cm = c2@;
                    es.insert(p, (kstr, c2));
                    match r {
                        Err(f) => {
                            assert(entries_model(es@) =~= em);
                        },
                        _ => {
                            assert(entries_model(es@) =~= em.update(p as int, (em[p as int].0, cm)));
                        },
                    }
                    (DocValue::Table(es), r)
                },
            }
        },
        DocValue::Array(mut a) => {
            let ghost am = items_model(a@);
            assert(dm == DocModel::Array(am));
            let part = &parts[i];
            assert(part@.subrange(0, part@.len() as int) =~= part@);
            match parse_usize(part, 0, part.len()) {
                None => (DocValue::Array(a), Err(PathFault::BadIndex(i))),
                Some(n) => {
                    if n >= a.len() {
                        return (DocValue::Array(a), Ok(None));
                    }
                    let child = a.remove(n);
                    assert(child@ == am[n as int]);
                    if last {
                        assert(items_model(a@) =~= am.remove(n as int));
                        return (DocValue::Array(a), Ok(Some(child)));
                    }
                    let (c2, r) = doc_remove_exec(child, parts, i + 1);
                    let ghost cm = c2@;
                    a.insert(n, c2);
                    match r {
                        Err(f) => {
                            assert(items_model(a@) =~= am);
                        },
                        _ => {
                            assert(items_model(a@) =~= am.update(n as int, cm));
                        },
                    }
                    (DocValue::Array(a), r)
                },
            }
        },
        DocValue::Scalar(s) => (DocValue::Scalar(s), Err(PathFault::NotContainer(i))),
    }
}


/// The message of a JSON path fault.
pub open spec fn json_fault_message(ps: Seq<Seq<char>>, f: PathFault) -> Seq<char> {
    match f {
        PathFault::BadIndex(i) => "Invalid array index: "@ + ps[i as int],
        PathFault::NotContainer(i) => "Invalid path: "@ + ps[i as int],
    }
}

/// The message of a TOML path fault met while writing or removing.
pub open spec fn toml_fault_message(ps: Seq<Seq<char>>, f: PathFault) -> Seq<char> {
    match f {
        PathFault::BadIndex(i) => "Array index '"@ + ps[i as int] + "' must be a number at position "@
            + decimal(i as nat),
        PathFault::NotContainer(i) => "Invalid path: "@ + ps[i as int],
    }
}

/// The message of a part that is no valid array index, met while reading.
pub open spec fn index_message(ps: Seq<Seq<char>>, i: usize) -> Seq<char> {
    "Invalid array index: "@ + ps[i as int]
}

/// `r` is what reading gives when the walk's outcome is `g`.
pub open spec fn read_outcome<T: View<V = DocModel>>(
    r: Result<Option<T>, String>,
    g: Result<Option<DocModel>, usize>,
    ps: Seq<Seq<char>>,
) -> bool {
    match g {
        Ok(Some(m)) => r matches Ok(Some(v)) && v@ == m,
        Ok(None) => r matches Ok(None),
        Err(i) => r matches Err(e) && e@ == index_message(ps, i),
    }
}

/// `r` is what removing gives when the walk's outcome is `g`, and `after`
/// the document left.
pub open spec fn remove_outcome<T: View<V = DocModel>>(
    r: Result<Option<T>, String>,
    after: DocModel,
    before: DocModel,
    g: Result<(DocModel, Option<DocModel>), PathFault>,
    msg: spec_fn(PathFault) -> Seq<char>,
) -> bool {
    match g {
        Ok((m, Some(x))) => after == m && (r matches Ok(Some(v)) && v@ == x),
        Ok((m, None)) => after == m && r matches Ok(None),
        Err(f) => after == before && (r matches Err(e) && e@ == msg(f)),
    }
}

/// `r` is what writing gives when the walk's outcome is `g`, and `after`
/// the document left.
pub open spec fn write_outcome(
    r: Result<(), String>,
    after: DocModel,
    before: DocModel,
    g: Result<DocModel, PathFault>,
    msg: spec_fn(PathFault) -> Seq<char>,
) -> bool {
    match g {
        Ok(m) => after == m && r is Ok,
        Err(f) => after == before && (r matches Err(e) && e@ == msg(f)),
    }
}

fn part_string(ps: &Vec<Vec<char>>, i: usize) -> (s: String)
    requires
        i < ps.len(),
    ensures
        s@ == ps@[i as int]@,
{
    string_of_all(&ps[i])
}

fn index_error(ps: &Vec<Vec<char>>, i: usize) -> (s: String)
    requires
        i < ps.len(),
    ensures
        s@ == index_message(views(ps@), i),
{
    let mut m = owned("Invalid array index: ");
    let p = part_string(ps, i);
    m.append(p.as_str());
    m
}

fn json_fault_string(ps: &Vec<Vec<char>>, f: PathFault) -> (s: String)
    requires
        match f {
            PathFault::BadIndex(i) => i < ps.len(),
            PathFault::NotContainer(i) => i < ps.len(),
        },
    ensures
        s@ == json_fault_message(views(ps@), f),
{
    match f {
        PathFault::BadIndex(i) => index_error(ps, i),
        PathFault::NotContainer(i) => {
            let mut m = owned("Invalid path: ");
            let p = part_string(ps, i);
            m.append(p.as_str());
            m
        },
    }
}

fn toml_fault_string(ps: &Vec<Vec<char>>, f: PathFault) -> (s: String)
    requires
        match f {
            PathFault::BadIndex(i) => i < ps.len(),
            PathFault::NotContainer(i) => i < ps.len(),
        },
    ensures
        s@ == toml_fault_message(views(ps@), f),
{
    match f {
        PathFault::BadIndex(i) => {
            let mut m = owned("Array index '");
            let p = part_string(ps, i);
            m.append(p.as_str());
            m.append("' must be a number at position ");
            push_decimal(&mut m, i);
            m
        },
        PathFault::NotContainer(i) => json_fault_string(ps, f),
    }
}

/// Lemma: the faults of a walk name a part of the path.
pub proof fn lemma_fault_in_path(d: DocModel, ps: Seq<Seq<char>>, i: int, v: DocModel)
    requires
        0 <= i,
    ensures
        doc_set(d, ps, i, v) matches Err(f) ==> (match f {
            PathFault::BadIndex(j) => j < ps.len(),
            PathFault::NotContainer(j) => j < ps.len(),
        }),
        doc_remove(d, ps, i) matches Err(f) ==> (match f {
            PathFault::BadIndex(j) => j < ps.len(),
            PathFault::NotContainer(j) => j < ps.len(),
        }),
        doc_get(d, ps, i) matches Err(j) ==> j < ps.len(),
    decreases ps.len() - i,
{
    if i < ps.len() {
        match d {
            DocModel::Table(es) => {
                let p = lookup(es, ps[i]);
                if p >= 0 {
                    lemma_fault_in_path(es[p].1, ps, i + 1, v);
                }
                lemma_fault_in_path(DocModel::Table(Seq::empty()), ps, i + 1, v);
            },
            DocModel::Array(a) => {
                if let Some(n) = parse_usize_spec(ps[i]) {
                    lemma_fault_in_path(pad(a, n as int)[n as int], ps, i + 1, v);
                    if n < a.len() {
                        lemma_fault_in_path(a[n as int], ps, i + 1, v);
                    }
                }
            },
            DocModel::Scalar(_) => {},
        }
    }
}


/// Writing at `parts[i..]` lands where reading looks: at the last part,
/// an array index is at most the array's length (an index further out
/// appends at the end, where that index does not reach).
pub open spec fn set_lands(d: DocModel, parts: Seq<Seq<char>>, i: int) -> bool
    decreases parts.len() - i,
{
    if i < 0 || i >= parts.len() {
        true
    } else {
        let last = i == parts.len() - 1;
        match d {
            DocModel::Table(es) => if last {
                true
            } else {
                let p = lookup(es, parts[i]);
                set_lands(
                    if p >= 0 {
                        es[p].1
                    } else {
                        DocModel::Table(Seq::empty())
                    },
                    parts,
                    i + 1,
                )
            },
            DocModel::Array(a) => match parse_usize_spec(parts[i]) {
                None => true,
                Some(n) => if last {
                    n <= a.len()
                } else {
                    set_lands(pad(a, n as int)[n as int], parts, i + 1)
                },
            },
            DocModel::Scalar(_) => true,
        }
    }
}

/// Lemma: after `table_insert`, the key selects the entry just written.
pub proof fn lemma_lookup_insert(es: Seq<(Seq<char>, DocModel)>, k: Seq<char>, v: DocModel)
    ensures
        0 <= lookup(table_insert(es, k, v), k) < table_insert(es, k, v).len(),
        table_insert(es, k, v)[lookup(table_insert(es, k, v), k)] == (k, v),
{
    let p = lookup(es, k);
    lemma_first_index(entry_keys(es), k);
    if p >= 0 {
        assert(entry_keys(es.update(p, (k, v))) =~= entry_keys(es));
    } else {
        assert(entry_keys(es.push((k, v))).drop_last() =~= entry_keys(es));
    }
}

/// Lemma: `table_insert` leaves the entry of every other key where it was.
pub proof fn lemma_lookup_insert_other(
    es: Seq<(Seq<char>, DocModel)>,
    k: Seq<char>,
    v: DocModel,
    k2: Seq<char>,
)
    requires
        k2 != k,
    ensures
        lookup(table_insert(es, k, v), k2) == lookup(es, k2),
        lookup(es, k2) >= 0 ==> table_insert(es, k, v)[lookup(es, k2)] == es[lookup(es, k2)],
{
    let p = lookup(es, k);
    lemma_first_index(entry_keys(es), k);
    lemma_first_index(entry_keys(es), k2);
    if p >= 0 {
        assert(entry_keys(es.update(p, (k, v))) =~= entry_keys(es));
    } else {
        assert(entry_keys(es.push((k, v))).drop_last() =~= entry_keys(es));
    }
}

/// The paths `ps` and `q` part at some position from `i` on, at a table
/// by different keys or at an array by different indices of which `q`'s
/// is already taken; before that they agree.
pub open spec fn paths_apart(d: DocModel, ps: Seq<Seq<char>>, q: Seq<Seq<char>>, i: int) -> bool
    decreases ps.len() - i,
{
    if i < 0 || i >= ps.len() || i >= q.len() {
        false
    } else {
        match d {
            DocModel::Table(es) => if q[i] != ps[i] {
                true
            } else {
                let p = lookup(es, ps[i]);
                paths_apart(
                    if p >= 0 {
                        es[p].1
                    } else {
                        DocModel::Table(Seq::empty())
                    },
                    ps,
                    q,
                    i + 1,
                )
            },
            DocModel::Array(a) => match (parse_usize_spec(ps[i]), parse_usize_spec(q[i])) {
                (Some(n), Some(m)) => if n != m {
                    m < a.len()
                } else {
                    q[i] == ps[i] && paths_apart(pad(a, n as int)[n as int], ps, q, i + 1)
                },
                _ => false,
            },
            DocModel::Scalar(_) => false,
        }
    }
}

/// Law: a write leaves every path that parts from it where it was: a read
/// there gives what it gave before.
pub proof fn law_set_keeps_other_paths(
    d: DocModel,
    ps: Seq<Seq<char>>,
    q: Seq<Seq<char>>,
    i: int,
    v: DocModel,
)
    requires
        doc_set(d, ps, i, v) is Ok,
        paths_apart(d, ps, q, i),
    ensures
        doc_get(doc_set(d, ps, i, v)->Ok_0, q, i) == doc_get(d, q, i),
    decreases ps.len() - i,
{
    reveal_with_fuel(paths_apart, 2);
    let last = i == ps.len() - 1;
    match d {
        DocModel::Table(es) => {
            let p = lookup(es, ps[i]);
            let child = if p >= 0 {
                es[p].1
            } else {
                DocModel::Table(Seq::empty())
            };
            let c = if last {
                v
            } else {
                doc_set(child, ps, i + 1, v)->Ok_0
            };
            let es2 = table_insert(es, ps[i], c);
            assert(doc_set(d, ps, i, v) == Ok::<DocModel, PathFault>(DocModel::Table(es2)));
            if q[i] != ps[i] {
                lemma_lookup_insert_other(es, ps[i], c, q[i]);
                let k = lookup(es, q[i]);
                if k >= 0 {
                    assert(es2[k] == es[k]);
                }
            } else {
                assert(!last);
                assert(i + 1 < q.len());
                law_set_keeps_other_paths(child, ps, q, i + 1, v);
                lemma_lookup_insert(es, ps[i], c);
                let r = lookup(es2, ps[i]);
                assert(es2[r].1 == c);
                assert(doc_get(DocModel::Table(es2), q, i) == doc_get(c, q, i + 1));
                if p < 0 {
                    lemma_get_empty_table(q, i + 1);
                    assert(doc_get(d, q, i) == Ok::<Option<DocModel>, usize>(None));
                } else {
                    assert(doc_get(d, q, i) == doc_get(es[p].1, q, i + 1));
                }
            }
        },
        DocModel::Array(a) => {
            let n = parse_usize_spec(ps[i])->Some_0;
            let m = parse_usize_spec(q[i])->Some_0;
            if n != m {
                if !last {
                    let a2 = pad(a, n as int);
                    assert(a2[m as int] == a[m as int]);
                }
            } else {
                assert(!last);
                assert(i + 1 < q.len());
                let a2 = pad(a, n as int);
                law_set_keeps_other_paths(a2[n as int], ps, q, i + 1, v);
                if n >= a.len() {
                    lemma_get_empty_table(q, i + 1);
                }
            }
        },
        DocModel::Scalar(_) => {},
    }
}

/// Lemma: a read inside an empty table finds nothing.
pub proof fn lemma_get_empty_table(q: Seq<Seq<char>>, i: int)
    requires
        0 <= i < q.len(),
    ensures
        doc_get(DocModel::Table(Seq::empty()), q, i) == Ok::<Option<DocModel>, usize>(None),
{
    lemma_first_index(entry_keys(Seq::<(Seq<char>, DocModel)>::empty()), q[i]);
}

/// Law: a successful write at a path that lands is read back at that path.
pub proof fn law_get_after_set(d: DocModel, ps: Seq<Seq<char>>, i: int, v: DocModel)
    requires
        0 <= i < ps.len(),
        doc_set(d, ps, i, v) is Ok,
        set_lands(d, ps, i),
    ensures
        doc_get(doc_set(d, ps, i, v)->Ok_0, ps, i) == Ok::<Option<DocModel>, usize>(Some(v)),
    decreases ps.len() - i,
{
    let last = i == ps.len() - 1;
    match d {
        DocModel::Table(es) => {
            if last {
                lemma_lookup_insert(es, ps[i], v);
                let es2 = table_insert(es, ps[i], v);
                let q = lookup(es2, ps[i]);
                assert(doc_get(DocModel::Table(es2), ps, i) == doc_get(es2[q].1, ps, i + 1));
                assert(doc_get(v, ps, i + 1) == Ok::<Option<DocModel>, usize>(Some(v)));
            } else {
                let p = lookup(es, ps[i]);
                let child = if p >= 0 {
                    es[p].1
                } else {
                    DocModel::Table(Seq::empty())
                };
                law_get_after_set(child, ps, i + 1, v);
                let c = doc_set(child, ps, i + 1, v)->Ok_0;
                lemma_lookup_insert(es, ps[i], c);
                let es2 = table_insert(es, ps[i], c);
                assert(doc_set(d, ps, i, v) == Ok::<DocModel, PathFault>(DocModel::Table(es2)));
                let q = lookup(es2, ps[i]);
                assert(es2[q].1 == c);
                assert(doc_get(DocModel::Table(es2), ps, i) == doc_get(c, ps, i + 1));
            }
        },
        DocModel::Array(a) => {
            let n = parse_usize_spec(ps[i])->Some_0;
            if !last {
                let a2 = pad(a, n as int);
                law_get_after_set(a2[n as int], ps, i + 1, v);
            }
        },
        DocModel::Scalar(_) => {},
    }
}

/// Law: a removal that gives a value back gives what a read at that path
/// gave before.
pub proof fn law_remove_gives_what_get_gave(d: DocModel, ps: Seq<Seq<char>>, i: int)
    requires
        0 <= i,
    ensures
        doc_remove(d, ps, i) matches Ok((_, Some(x))) ==> doc_get(d, ps, i)
            == Ok::<Option<DocModel>, usize>(Some(x)),
    decreases ps.len() - i,
{
    if i < ps.len() {
        let last = i == ps.len() - 1;
        match d {
            DocModel::Table(es) => {
                let p = lookup(es, ps[i]);
                if p >= 0 && !last {
                    law_remove_gives_what_get_gave(es[p].1, ps, i + 1);
                }
            },
            DocModel::Array(a) => {
                if let Some(n) = parse_usize_spec(ps[i]) {
                    if n < a.len() && !last {
                        law_remove_gives_what_get_gave(a[n as int], ps, i + 1);
                    }
                }
            },
            DocModel::Scalar(_) => {},
        }
    }
}

/// Law: a successful write at a path that lands is removed again, value
/// and all, by a removal at that path.
pub proof fn law_remove_after_set(d: DocModel, ps: Seq<Seq<char>>, i: int, v: DocModel)
    requires
        0 <= i < ps.len(),
        doc_set(d, ps, i, v) is Ok,
        set_lands(d, ps, i),
    ensures
        doc_remove(doc_set(d, ps, i, v)->Ok_0, ps, i) matches Ok((_, Some(x))) && x == v,
    decreases ps.len() - i,
{
    let last = i == ps.len() - 1;
    match d {
        DocModel::Table(es) => {
            if last {
                lemma_lookup_insert(es, ps[i], v);
            } else {
                let p = lookup(es, ps[i]);
                let child = if p >= 0 {
                    es[p].1
                } else {
                    DocModel::Table(Seq::empty())
                };
                law_remove_after_set(child, ps, i + 1, v);
                lemma_lookup_insert(es, ps[i], doc_set(child, ps, i + 1, v)->Ok_0);
            }
        },
        DocModel::Array(a) => {
            let n = parse_usize_spec(ps[i])->Some_0;
            if !last {
                let a2 = pad(a, n as int);
                law_remove_after_set(a2[n as int], ps, i + 1, v);
            }
        },
        DocModel::Scalar(_) => {},
    }
}

/// Every value that `d` holds at a proper prefix of `parts[i..]`, `d`
/// itself included, is a table (a prefix that reaches nothing asks
/// nothing more).
pub open spec fn tables_along(d: DocModel, parts: Seq<Seq<char>>, i: int) -> bool
    decreases parts.len() - i,
{
    if i < 0 || i >= parts.len() {
        true
    } else {
        match d {
            DocModel::Table(es) => i == parts.len() - 1 || lookup(es, parts[i]) < 0 || tables_along(
                es[lookup(es, parts[i])].1,
                parts,
                i + 1,
            ),
            _ => false,
        }
    }
}

/// The paths `ps` and `q` differ at some position from `i` on that both
/// reach: neither is a prefix of the other.
pub open spec fn parts_diverge(ps: Seq<Seq<char>>, q: Seq<Seq<char>>, i: int) -> bool {
    exists|k: int| i <= k < ps.len() && k < q.len() && #[trigger] ps[k] != #[trigger] q[k]
}

/// Lemma: an empty table has tables along every path.
pub proof fn lemma_tables_along_empty(ps: Seq<Seq<char>>, i: int)
    ensures
        tables_along(DocModel::Table(Seq::empty()), ps, i),
{
    if 0 <= i < ps.len() {
        lemma_first_index(entry_keys(Seq::<(Seq<char>, DocModel)>::empty()), ps[i]);
    }
}

/// Lemma: with tables along the path, the child a write goes into has
/// tables along the rest of it.
pub proof fn lemma_tables_along_child(d: DocModel, ps: Seq<Seq<char>>, i: int)
    requires
        0 <= i < ps.len() - 1,
        tables_along(d, ps, i),
    ensures
        d is Table,
        tables_along(
            if lookup(d->Table_0, ps[i]) >= 0 {
                d->Table_0[lookup(d->Table_0, ps[i])].1
            } else {
                DocModel::Table(Seq::empty())
            },
            ps,
            i + 1,
        ),
{
    lemma_tables_along_empty(ps, i + 1);
}

/// Lemma: with tables along the path, a write succeeds and lands where a
/// read looks.
pub proof fn lemma_set_along_tables(d: DocModel, ps: Seq<Seq<char>>, i: int, v: DocModel)
    requires
        0 <= i < ps.len(),
        tables_along(d, ps, i),
    ensures
        doc_set(d, ps, i, v) is Ok,
        set_lands(d, ps, i),
    decreases ps.len() - i,
{
    if i < ps.len() - 1 {
        lemma_tables_along_child(d, ps, i);
        let es = d->Table_0;
        let p = lookup(es, ps[i]);
        let child = if p >= 0 {
            es[p].1
        } else {
            DocModel::Table(Seq::empty())
        };
        lemma_set_along_tables(child, ps, i + 1, v);
    }
}

/// Lemma: with tables along `ps`, a path that differs from it at a
/// position both reach parts from it.
pub proof fn lemma_apart_along_tables(d: DocModel, ps: Seq<Seq<char>>, q: Seq<Seq<char>>, i: int)
    requires
        0 <= i,
        tables_along(d, ps, i),
        parts_diverge(ps, q, i),
    ensures
        paths_apart(d, ps, q, i),
    decreases ps.len() - i,
{
    let k = choose|k: int| i <= k < ps.len() && k < q.len() && #[trigger] ps[k] != #[trigger] q[k];
    if q[i] == ps[i] {
        assert(k > i);
        assert(parts_diverge(ps, q, i + 1));
        lemma_tables_along_child(d, ps, i);
        let es = d->Table_0;
        let p = lookup(es, ps[i]);
        let child = if p >= 0 {
            es[p].1
        } else {
            DocModel::Table(Seq::empty())
        };
        lemma_apart_along_tables(child, ps, q, i + 1);
    }
}

/// Law: where every value already on the way to a path is a table (the
/// document itself included), writing `v` there succeeds (missing tables
/// are created), a read at the path then gives `v`, and a read at any path
/// that is neither a prefix nor an extension of it gives what it gave
/// before.
pub proof fn law_set_along_tables(d: DocModel, path: Seq<char>, q: Seq<char>, v: DocModel)
    requires
        path_parts(path).len() > 0,
        tables_along(d, path_parts(path), 0),
    ensures
        doc_set(d, path_parts(path), 0, v) is Ok,
        doc_get(doc_set(d, path_parts(path), 0, v)->Ok_0, path_parts(path), 0) == Ok::<
            Option<DocModel>,
            usize,
        >(Some(v)),
        parts_diverge(path_parts(path), path_parts(q), 0) ==> doc_get(
            doc_set(d, path_parts(path), 0, v)->Ok_0,
            path_parts(q),
            0,
        ) == doc_get(d, path_parts(q), 0),
{
    let ps = path_parts(path);
    lemma_set_along_tables(d, ps, 0, v);
    law_get_after_set(d, ps, 0, v);
    if parts_diverge(ps, path_parts(q), 0) {
        lemma_apart_along_tables(d, ps, path_parts(q), 0);
        law_set_keeps_other_paths(d, ps, path_parts(q), 0, v);
    }
}

/// `after` is `before` with the item at position `k` taken out: one item
/// fewer, the others in their order.
pub open spec fn taken_out<A>(before: Seq<A>, after: Seq<A>, k: int) -> bool {
    &&& 0 <= k < before.len()
    &&& after.len() + 1 == before.len()
    &&& forall|j: int| 0 <= j < k ==> after[j] == before[j]
    &&& forall|j: int| k <= j < after.len() ==> after[j] == before[j + 1]
}

/// `pm` is the table or array `pd` with the entry or item that `part`
/// selects, holding `x`, taken out.
pub open spec fn doc_taken_out(pd: DocModel, pm: DocModel, part: Seq<char>, x: DocModel) -> bool {
    match (pd, pm) {
        (DocModel::Table(es), DocModel::Table(es2)) => lookup(es, part) >= 0 && es[lookup(
            es,
            part,
        )] == (part, x) && taken_out(es, es2, lookup(es, part)),
        (DocModel::Array(a), DocModel::Array(a2)) => parse_usize_spec(part) matches Some(n) && n
            < a.len() && a[n as int] == x && taken_out(a, a2, n as int),
        _ => false,
    }
}

/// Law: a removal that gives a value back takes it out of the document:
/// the table or array the path leads into (read at the path without its
/// last part) loses exactly that entry or item, one fewer, the others in
/// their order, and it held the value given back.
pub proof fn law_remove_takes_out(d: DocModel, ps: Seq<Seq<char>>, i: int)
    requires
        0 <= i < ps.len(),
    ensures
        doc_remove(d, ps, i) matches Ok((m, Some(x))) ==> (doc_get(d, ps.drop_last(), i) matches Ok(
            Some(pd),
        ) && doc_get(m, ps.drop_last(), i) matches Ok(Some(pm)) && doc_taken_out(
            pd,
            pm,
            ps.last(),
            x,
        )),
    decreases ps.len() - i,
{
    let last = i == ps.len() - 1;
    let q = ps.drop_last();
    match d {
        DocModel::Table(es) => {
            let p = lookup(es, ps[i]);
            lemma_first_index(entry_keys(es), ps[i]);
            if p >= 0 {
                assert(es[p].0 == entry_keys(es)[p]);
                if last {
                    assert(ps.last() == ps[i]);
                    assert(es[p] == (ps.last(), es[p].1));
                } else {
                    assert(q[i] == ps[i]);
                    law_remove_takes_out(es[p].1, ps, i + 1);
                    if let Ok((c, r)) = doc_remove(es[p].1, ps, i + 1) {
                        let es2 = es.update(p, (es[p].0, c));
                        assert(entry_keys(es2) =~= entry_keys(es));
                        assert(lookup(es2, q[i]) == p);
                        assert(doc_get(DocModel::Table(es2), q, i) == doc_get(c, q, i + 1));
                        assert(doc_get(d, q, i) == doc_get(es[p].1, q, i + 1));
                    }
                }
            }
        },
        DocModel::Array(a) => {
            if let Some(n) = parse_usize_spec(ps[i]) {
                if n < a.len() {
                    if last {
                        assert(ps.last() == ps[i]);
                    } else {
                        assert(q[i] == ps[i]);
                        law_remove_takes_out(a[n as int], ps, i + 1);
                        if let Ok((c, r)) = doc_remove(a[n as int], ps, i + 1) {
                            let a2 = a.update(n as int, c);
                            assert(doc_get(DocModel::Array(a2), q, i) == doc_get(c, q, i + 1));
                        }
                    }
                }
            }
        },
        DocModel::Scalar(_) => {},
    }
}

/// Lemma: in a table with distinct keys, the entry a key selects is any
/// entry holding that key.
pub proof fn lemma_lookup_distinct(es: Seq<(Seq<char>, DocModel)>, k: int)
    requires
        keys_distinct(es),
        0 <= k < es.len(),
    ensures
        lookup(es, es[k].0) == k,
{
    lemma_first_index(entry_keys(es), es[k].0);
    assert(entry_keys(es)[k] == es[k].0);
    let p = lookup(es, es[k].0);
    if p != k {
        assert(es[p].0 == entry_keys(es)[p]);
        if p < k {
            assert(es[p].0 != es[k].0);
        }
    }
}

/// Law: one step of a read. A scalar is the answer wherever the path goes
/// on. In a well-formed table, the entry holding the part's key is read
/// further, and a key no entry holds reads nothing. In an array, the item
/// at the part's index is read further, an index past the end reads
/// nothing, and a part that is no index is refused at its position.
pub proof fn law_get_steps(d: DocModel, ps: Seq<Seq<char>>, i: int)
    requires
        0 <= i < ps.len(),
    ensures
        d is Scalar ==> doc_get(d, ps, i) == Ok::<Option<DocModel>, usize>(Some(d)),
        d matches DocModel::Table(es) ==> doc_wf(d) ==> (forall|k: int|
            0 <= k < es.len() && (#[trigger] es[k]).0 == ps[i] ==> doc_get(d, ps, i) == doc_get(
                es[k].1,
                ps,
                i + 1,
            )),
        d matches DocModel::Table(es) ==> (forall|k: int| 0 <= k < es.len() ==> (#[trigger] es[k]).0
            != ps[i]) ==> doc_get(d, ps, i) == Ok::<Option<DocModel>, usize>(None),
        d matches DocModel::Array(a) ==> (match parse_usize_spec(ps[i]) {
            None => doc_get(d, ps, i) == Err::<Option<DocModel>, usize>(i as usize),
            Some(n) => if n < a.len() {
                doc_get(d, ps, i) == doc_get(a[n as int], ps, i + 1)
            } else {
                doc_get(d, ps, i) == Ok::<Option<DocModel>, usize>(None)
            },
        }),
{
    if let DocModel::Table(es) = d {
        lemma_first_index(entry_keys(es), ps[i]);
        if doc_wf(d) {
            assert forall|k: int|
                0 <= k < es.len() && (#[trigger] es[k]).0 == ps[i] implies doc_get(d, ps, i)
                == doc_get(es[k].1, ps, i + 1) by {
                lemma_lookup_distinct(es, k);
            }
        }
        if forall|k: int| 0 <= k < es.len() ==> (#[trigger] es[k]).0 != ps[i] {
            if lookup(es, ps[i]) >= 0 {
                assert(es[lookup(es, ps[i])].0 == entry_keys(es)[lookup(es, ps[i])]);
            }
        }
    }
}

/// Law: a write at the last part of a path. In a well-formed table the
/// entry holding the key gets the value in its place, or a new entry for
/// the key is added after the others; in an array the item at the index
/// is replaced, or the value is added after the last item when the index
/// is past the end; a part that is no index, or a scalar, is refused at
/// its position.
pub proof fn law_set_last(d: DocModel, ps: Seq<Seq<char>>, v: DocModel)
    requires
        ps.len() > 0,
    ensures
        d is Scalar ==> doc_set(d, ps, ps.len() - 1, v) == Err::<DocModel, PathFault>(
            PathFault::NotContainer((ps.len() - 1) as usize),
        ),
        d matches DocModel::Table(es) ==> doc_wf(d) ==> (forall|k: int|
            0 <= k < es.len() && (#[trigger] es[k]).0 == ps[ps.len() - 1] ==> doc_set(
                d,
                ps,
                ps.len() - 1,
                v,
            ) == Ok::<DocModel, PathFault>(
                DocModel::Table(es.update(k, (ps[ps.len() - 1], v))),
            )),
        d matches DocModel::Table(es) ==> (forall|k: int|
            0 <= k < es.len() ==> (#[trigger] es[k]).0 != ps[ps.len() - 1]) ==> doc_set(
            d,
            ps,
            ps.len() - 1,
            v,
        ) == Ok::<DocModel, PathFault>(DocModel::Table(es.push((ps[ps.len() - 1], v)))),
        d matches DocModel::Array(a) ==> (match parse_usize_spec(ps[ps.len() - 1]) {
            None => doc_set(d, ps, ps.len() - 1, v) == Err::<DocModel, PathFault>(
                PathFault::BadIndex((ps.len() - 1) as usize),
            ),
            Some(n) => if n < a.len() {
                doc_set(d, ps, ps.len() - 1, v) == Ok::<DocModel, PathFault>(
                    DocModel::Array(a.update(n as int, v)),
                )
            } else {
                doc_set(d, ps, ps.len() - 1, v) == Ok::<DocModel, PathFault>(
                    DocModel::Array(a.push(v)),
                )
            },
        }),
{
    let i = ps.len() - 1;
    if let DocModel::Table(es) = d {
        lemma_first_index(entry_keys(es), ps[i]);
        if doc_wf(d) {
            assert forall|k: int| 0 <= k < es.len() && (#[trigger] es[k]).0 == ps[i] implies doc_set(
                d,
                ps,
                i,
                v,
            ) == Ok::<DocModel, PathFault>(DocModel::Table(es.update(k, (ps[i], v)))) by {
                lemma_lookup_distinct(es, k);
            }
        }
        if forall|k: int| 0 <= k < es.len() ==> (#[trigger] es[k]).0 != ps[i] {
            if lookup(es, ps[i]) >= 0 {
                assert(es[lookup(es, ps[i])].0 == entry_keys(es)[lookup(es, ps[i])]);
            }
        }
    }
}

/// Law: a removal that gives nothing back leaves the document as it was.
pub proof fn law_remove_nothing_keeps(d: DocModel, ps: Seq<Seq<char>>, i: int)
    ensures
        doc_remove(d, ps, i) matches Ok((m, None)) ==> m == d,
    decreases ps.len() - i,
{
    if 0 <= i < ps.len() {
        let last = i == ps.len() - 1;
        match d {
            DocModel::Table(es) => {
                let p = lookup(es, ps[i]);
                lemma_first_index(entry_keys(es), ps[i]);
                if p >= 0 && !last {
                    law_remove_nothing_keeps(es[p].1, ps, i + 1);
                    if let Ok((c, None)) = doc_remove(es[p].1, ps, i + 1) {
                        assert(es.update(p, (es[p].0, c)) =~= es);
                    }
                }
            },
            DocModel::Array(a) => {
                if let Some(n) = parse_usize_spec(ps[i]) {
                    if n < a.len() && !last {
                        law_remove_nothing_keeps(a[n as int], ps, i + 1);
                        if let Ok((c, None)) = doc_remove(a[n as int], ps, i + 1) {
                            assert(a.update(n as int, c) =~= a);
                        }
                    }
                }
            },
            DocModel::Scalar(_) => {},
        }
    }
}

/// Reading, writing and removing in a JSON document by path.
pub trait JSONModifier: Sized + View<V = DocModel> {
    /// The value at `path`; the first scalar met on the way is the answer.
    /// Inside a well-formed document it is well-formed.
    fn get(&self, path: &str) -> (r: Result<Option<Self>, String>)
        ensures
            read_outcome(r, doc_get(self@, path_parts(path@), 0), path_parts(path@)),
            doc_wf(self@) ==> (r matches Ok(Some(v)) ==> doc_wf(v@)),
    ;

    /// Writes `value` at `path`, creating tables on the way. A well-formed
    /// value written into a well-formed document leaves it well-formed.
    fn set(&mut self, path: &str, value: Self) -> (r: Result<(), String>)
        ensures
            write_outcome(
                r,
                final(self)@,
                old(self)@,
                doc_set(old(self)@, path_parts(path@), 0, value@),
                |f: PathFault| json_fault_message(path_parts(path@), f),
            ),
            doc_wf(old(self)@) && doc_wf(value@) ==> doc_wf(final(self)@),
    ;

    /// Removes the value at `path` and gives it back. A well-formed
    /// document stays well-formed, and the value removed is well-formed.
    fn remove(&mut self, path: &str) -> (r: Result<Option<Self>, String>)
        ensures
            remove_outcome(
                r,
                final(self)@,
                old(self)@,
                doc_remove(old(self)@, path_parts(path@), 0),
                |f: PathFault| json_fault_message(path_parts(path@), f),
            ),
            doc_wf(old(self)@) ==> doc_wf(final(self)@) && (r matches Ok(Some(v)) ==> doc_wf(
                v@,
            )),
    ;
}

/// Reading, writing and removing in a TOML document by path.
pub trait TomlModifier: Sized + View<V = DocModel> {
    /// The value at `path`; the first scalar met on the way is the answer.
    /// Inside a well-formed document it is well-formed.
    fn get(&self, path: &str) -> (r: Result<Option<Self>, String>)
        ensures
            read_outcome(r, doc_get(self@, path_parts(path@), 0), path_parts(path@)),
            doc_wf(self@) ==> (r matches Ok(Some(v)) ==> doc_wf(v@)),
    ;

    /// Writes `value` at `path`, creating tables on the way. A well-formed
    /// value written into a well-formed document leaves it well-formed.
    fn set(&mut self, path: &str, value: Self) -> (r: Result<(), String>)
        ensures
            write_outcome(
                r,
                final(self)@,
                old(self)@,
                doc_set(old(self)@, path_parts(path@), 0, value@),
                |f: PathFault| toml_fault_message(path_parts(path@), f),
            ),
            doc_wf(old(self)@) && doc_wf(value@) ==> doc_wf(final(self)@),
    ;

    /// Removes the value at `path` and gives it back. A well-formed
    /// document stays well-formed, and the value removed is well-formed.
    fn remove(&mut self, path: &str) -> (r: Result<Option<Self>, String>)
        ensures
            remove_outcome(
                r,
                final(self)@,
                old(self)@,
                doc_remove(old(self)@, path_parts(path@), 0),
                |f: PathFault| toml_fault_message(path_parts(path@), f),
            ),
            doc_wf(old(self)@) ==> doc_wf(final(self)@) && (r matches Ok(Some(v)) ==> doc_wf(
                v@,
            )),
    ;
}

fn doc_read(d: &DocValue, path: &str) -> (r: Result<Option<DocValue>, String>)
    ensures
        read_outcome(r, doc_get(d@, path_parts(path@), 0), path_parts(path@)),
{
    let pv = chars_of(path);
    let parts = PathParser::parse_path(&pv);
    proof {
        lemma_fault_in_path(d@, views(parts@), 0, d@);
    }
    match doc_get_exec(d, &parts) {
        Ok(v) => Ok(v),
        Err(i) => Err(index_error(&parts, i)),
    }
}

fn doc_write(d: &mut DocValue, path: &str, value: DocValue, toml: bool) -> (r: Result<(), String>)
    ensures
        write_outcome(
            r,
            final(d)@,
            old(d)@,
            doc_set(old(d)@, path_parts(path@), 0, value@),
            if toml {
                |f: PathFault| toml_fault_message(path_parts(path@), f)
            } else {
                |f: PathFault| json_fault_message(path_parts(path@), f)
            },
        ),
{
    let pv = chars_of(path);
    let parts = PathParser::parse_path(&pv);
    let ghost ps = views(parts@);
    if parts.len() == 0 {
        return Ok(());
    }
    proof {
        lemma_fault_in_path(d@, ps, 0, value@);
    }
    let mut cur = DocValue::Scalar(String::new());
    std::mem::swap(d, &mut cur);
    let (next, r) = doc_set_exec(cur, &parts, 0, value);
    *d = next;
    match r {
        Ok(()) => Ok(()),
        Err(f) => {
            if toml {
                Err(toml_fault_string(&parts, f))
            } else {
                Err(json_fault_string(&parts, f))
            }
        },
    }
}

fn doc_delete(d: &mut DocValue, path: &str, toml: bool) -> (r: Result<Option<DocValue>, String>)
    ensures
        remove_outcome(
            r,
            final(d)@,
            old(d)@,
            doc_remove(old(d)@, path_parts(path@), 0),
            if toml {
                |f: PathFault| toml_fault_message(path_parts(path@), f)
            } else {
                |f: PathFault| json_fault_message(path_parts(path@), f)
            },
        ),
{
    let pv = chars_of(path);
    let parts = PathParser::parse_path(&pv);
    let ghost ps = views(parts@);
    if parts.len() == 0 {
        return Ok(None);
    }
    proof {
        lemma_fault_in_path(d@, ps, 0, d@);
    }
    let mut cur = DocValue::Scalar(String::new());
    std::mem::swap(d, &mut cur);
    let (next, r) = doc_remove_exec(cur, &parts, 0);
    *d = next;
    match r {
        Ok(v) => Ok(v),
        Err(f) => {
            if toml {
                Err(toml_fault_string(&parts, f))
            } else {
                Err(json_fault_string(&parts, f))
            }
        },
    }
}

impl JSONModifier for JsonValue {
    fn get(&self, path: &str) -> (r: Result<Option<JsonValue>, String>) {
        let r = doc_read(&self.0, path);
        proof {
            if doc_wf(self@) {
                lemma_get_wf(self@, path_parts(path@), 0);
            }
        }
        match r {
            Ok(Some(v)) => Ok(Some(JsonValue(v))),
            Ok(None) => Ok(None),
            Err(e) => Err(e),
        }
    }

    fn set(&mut self, path: &str, value: JsonValue) -> (r: Result<(), String>) {
        proof {
            if doc_wf(old(self)@) && doc_wf(value@) {
                lemma_set_wf(old(self)@, path_parts(path@), 0, value@);
            }
        }
        doc_write(&mut self.0, path, value.0, false)
    }

    fn remove(&mut self, path: &str) -> (r: Result<Option<JsonValue>, String>) {
        proof {
            if doc_wf(old(self)@) {
                lemma_remove_wf(old(self)@, path_parts(path@), 0);
            }
        }
        match doc_delete(&mut self.0, path, false) {
            Ok(Some(v)) => Ok(Some(JsonValue(v))),
            Ok(None) => Ok(None),
            Err(e) => Err(e),
        }
    }
}

impl TomlModifier for TomlValue {
    fn get(&self, path: &str) -> (r: Result<Option<TomlValue>, String>) {
        let r = doc_read(&self.0, path);
        proof {
            if doc_wf(self@) {
                lemma_get_wf(self@, path_parts(path@), 0);
            }
        }
        match r {
            Ok(Some(v)) => Ok(Some(TomlValue(v))),
            Ok(None) => Ok(None),
            Err(e) => Err(e),
        }
    }

    fn set(&mut self, path: &str, value: TomlValue) -> (r: Result<(), String>) {
        proof {
            if doc_wf(old(self)@) && doc_wf(value@) {
                lemma_set_wf(old(self)@, path_parts(path@), 0, value@);
            }
        }
        doc_write(&mut self.0, path, value.0, true)
    }

    fn remove(&mut self, path: &str) -> (r: Result<Option<TomlValue>, String>) {
        proof {
            if doc_wf(old(self)@) {
                lemma_remove_wf(old(self)@, path_parts(path@), 0);
            }
        }
        match doc_delete(&mut self.0, path, true) {
            Ok(Some(v)) => Ok(Some(TomlValue(v))),
            Ok(None) => Ok(None),
            Err(e) => Err(e),
        }
    }
}

/// An XML element: its name, namespace data and attributes kept as
/// plain strings, and its child nodes.
pub struct Element {
    pub prefix: Option<String>,
    pub namespace: Option<String>,
    pub namespaces: Option<Vec<(String, String)>>,
    pub name: String,
    pub attributes: Vec<(String, String)>,
    pub children: Vec<XMLNode>,
}

/// A child node of an XML element.
pub enum XMLNode {
    Element(Element),
    Comment(String),
    CData(String),
    Text(String),
    ProcessingInstruction(String, Option<String>),
}

/// The mathematical form of an [`Element`].
pub struct ElementModel {
    pub prefix: Option<Seq<char>>,
    pub namespace: Option<Seq<char>>,
    pub namespaces: Option<Seq<(Seq<char>, Seq<char>)>>,
    pub name: Seq<char>,
    pub attributes: Seq<(Seq<char>, Seq<char>)>,
    pub children: Seq<NodeModel>,
}

/// The mathematical form of an [`XMLNode`].
pub enum NodeModel {
    Element(ElementModel),
    Comment(Seq<char>),
    CData(Seq<char>),
    Text(Seq<char>),
    ProcessingInstruction(Seq<char>, Option<Seq<char>>),
}

pub open spec fn opt_str(o: Option<String>) -> Option<Seq<char>> {
    match o {
        Some(s) => Some(s@),
        None => None,
    }
}

pub open spec fn pairs_model(v: Seq<(String, String)>) -> Seq<(Seq<char>, Seq<char>)> {
    v.map_values(|p: (String, String)| (p.0@, p.1@))
}

pub open spec fn opt_pairs(o: Option<Vec<(String, String)>>) -> Option<Seq<(Seq<char>, Seq<char>)>> {
    match o {
        Some(v) => Some(pairs_model(v@)),
        None => None,
    }
}

impl Element {
    pub open spec fn model(&self) -> ElementModel
        decreases self,
    {
        ElementModel {
            prefix: opt_str(self.prefix),
            namespace: opt_str(self.namespace),
            namespaces: opt_pairs(self.namespaces),
            name: self.name@,
            attributes: pairs_model(self.attributes@),
            children: nodes_model(self.children@),
        }
    }
}

impl XMLNode {
    pub open spec fn model(&self) -> NodeModel
        decreases self,
    {
        match self {
            XMLNode::Element(e) => NodeModel::Element(e.model()),
            XMLNode::Comment(s) => NodeModel::Comment(s@),
            XMLNode::CData(s) => NodeModel::CData(s@),
            XMLNode::Text(s) => NodeModel::Text(s@),
            XMLNode::ProcessingInstruction(a, b) => NodeModel::ProcessingInstruction(a@, opt_str(*b)),
        }
    }
}

/// The models of a list of nodes.
pub open spec fn nodes_model(v: Seq<XMLNode>) -> Seq<NodeModel>
    decreases v,
{
    Seq::new(
        v.len(),
        |i: int|
            if 0 <= i < v.len() {
                v[i].model()
            } else {
                NodeModel::Text(Seq::empty())
            },
    )
}

impl View for Element {
    type V = ElementModel;

    open spec fn view(&self) -> ElementModel {
        self.model()
    }
}

/// `e` with its children replaced by `ch`.
pub open spec fn with_children(e: ElementModel, ch: Seq<NodeModel>) -> ElementModel {
    ElementModel {
        prefix: e.prefix,
        namespace: e.namespace,
        namespaces: e.namespaces,
        name: e.name,
        attributes: e.attributes,
        children: ch,
    }
}

/// A new element named `n`, with no namespace, attributes or children.
pub open spec fn named_element(n: Seq<char>) -> ElementModel {
    ElementModel {
        prefix: None,
        namespace: None,
        namespaces: None,
        name: n,
        attributes: Seq::empty(),
        children: Seq::empty(),
    }
}

/// The position of the first child that is an element named `n`, or -1.
pub open spec fn first_element_named(ch: Seq<NodeModel>, n: Seq<char>) -> int
    decreases ch.len(),
{
    if ch.len() == 0 {
        -1
    } else {
        let p = first_element_named(ch.drop_last(), n);
        if p >= 0 {
            p
        } else if ch.last() matches NodeModel::Element(e) && e.name == n {
            ch.len() - 1
        } else {
            -1
        }
    }
}

pub open spec fn is_element_named(x: NodeModel, n: Seq<char>) -> bool {
    x matches NodeModel::Element(e) && e.name == n
}

/// Lemma: `first_element_named` is the first element child with that name,
/// and -1 exactly when there is none.
pub proof fn lemma_first_element_named(ch: Seq<NodeModel>, n: Seq<char>)
    ensures
        -1 <= first_element_named(ch, n) < ch.len(),
        first_element_named(ch, n) == -1 <==> (forall|j: int|
            0 <= j < ch.len() ==> !is_element_named(ch[j], n)),
        first_element_named(ch, n) >= 0 ==> is_element_named(ch[first_element_named(ch, n)], n)
            && (forall|j: int| 0 <= j < first_element_named(ch, n) ==> !is_element_named(ch[j], n)),
    decreases ch.len(),
{
    if ch.len() > 0 {
        lemma_first_element_named(ch.drop_last(), n);
        let p = first_element_named(ch.drop_last(), n);
        assert forall|j: int| 0 <= j < ch.len() - 1 implies ch.drop_last()[j] == ch[j] by {}
    }
}

/// The element children grown with `item` elements until there is a
/// position `n`.
pub open spec fn pad_nodes(ch: Seq<NodeModel>, n: int) -> Seq<NodeModel> {
    if n < ch.len() {
        ch
    } else {
        ch + Seq::new(
            (n + 1 - ch.len()) as nat,
            |j: int| NodeModel::Element(named_element("item"@)),
        )
    }
}

/// What reading at `parts[i..]` from `e` gives: the element reached,
/// `None` when an index or a name is missing, or the index and position
/// of a step onto a child that is no element.
pub open spec fn xml_get(e: ElementModel, ps: Seq<Seq<char>>, i: int) -> Result<
    Option<ElementModel>,
    (usize, usize),
>
    decreases ps.len() - i,
{
    if i < 0 || i >= ps.len() {
        Ok(Some(e))
    } else {
        match parse_usize_spec(ps[i]) {
            Some(n) => if n < e.children.len() {
                match e.children[n as int] {
                    NodeModel::Element(c) => xml_get(c, ps, i + 1),
                    _ => Err((n, i as usize)),
                }
            } else {
                Ok(None)
            },
            None => {
                let k = first_element_named(e.children, ps[i]);
                if k < 0 {
                    Ok(None)
                } else {
                    xml_get(e.children[k]->Element_0, ps, i + 1)
                }
            },
        }
    }
}

/// Writing at `parts[i..]` into `e` would step by index onto a child that
/// is no element, a step that has no element to descend into; `set`
/// leaves such writes out by `requires`.
pub open spec fn xml_set_panics(e: ElementModel, ps: Seq<Seq<char>>, i: int) -> bool
    decreases ps.len() - i,
{
    if i < 0 || i >= ps.len() {
        false
    } else {
        let last = i == ps.len() - 1;
        match parse_usize_spec(ps[i]) {
            Some(n) => {
                let ch = pad_nodes(e.children, n as int);
                if last {
                    false
                } else {
                    match ch[n as int] {
                        NodeModel::Element(c) => xml_set_panics(c, ps, i + 1),
                        _ => true,
                    }
                }
            },
            None => {
                let k = first_element_named(e.children, ps[i]);
                if last {
                    false
                } else if k >= 0 {
                    xml_set_panics(e.children[k]->Element_0, ps, i + 1)
                } else {
                    xml_set_panics(named_element(ps[i]), ps, i + 1)
                }
            },
        }
    }
}

/// What writing `v` at `parts[i..]` into `e` gives. An index pads the
/// children with `item` elements up to it; a name selects the first
/// element child so named, or adds one; at the last part the value takes
/// that place.
pub open spec fn xml_set(e: ElementModel, ps: Seq<Seq<char>>, i: int, v: ElementModel) -> ElementModel
    decreases ps.len() - i,
{
    if i < 0 || i >= ps.len() {
        e
    } else {
        let last = i == ps.len() - 1;
        match parse_usize_spec(ps[i]) {
            Some(n) => {
                let ch = pad_nodes(e.children, n as int);
                if last {
                    with_children(e, ch.update(n as int, NodeModel::Element(v)))
                } else {
                    match ch[n as int] {
                        NodeModel::Element(c) => with_children(
                            e,
                            ch.update(n as int, NodeModel::Element(xml_set(c, ps, i + 1, v))),
                        ),
                        _ => e,
                    }
                }
            },
            None => {
                let k = first_element_named(e.children, ps[i]);
                if k >= 0 {
                    if last {
                        with_children(e, e.children.update(k, NodeModel::Element(v)))
                    } else {
                        with_children(
                            e,
                            e.children.update(
                                k,
                                NodeModel::Element(
                                    xml_set(e.children[k]->Element_0, ps, i + 1, v),
                                ),
                            ),
                        )
                    }
                } else if last {
                    with_children(e, e.children.push(NodeModel::Element(v)))
                } else {
                    with_children(
                        e,
                        e.children.push(
                            NodeModel::Element(xml_set(named_element(ps[i]), ps, i + 1, v)),
                        ),
                    )
                }
            },
        }
    }
}

/// Why an XML removal cannot follow its path.
#[derive(Clone, Copy, PartialEq, Eq, Debug)]
pub enum XmlFault {
    /// The index (first) at the position (second) selects no element child.
    IndexNotFound(usize, usize),
    /// No element child bears the name at the position.
    KeyNotFound(usize),
}

/// What removing at `parts[i..]` from `e` gives: the new element and the
/// removed child if it was an element, or the fault. An index past the
/// last child at the last part removes nothing.
pub open spec fn xml_remove(e: ElementModel, ps: Seq<Seq<char>>, i: int) -> Result<
    (ElementModel, Option<ElementModel>),
    XmlFault,
>
    decreases ps.len() - i,
{
    if i < 0 || i >= ps.len() {
        Ok((e, None))
    } else {
        let last = i == ps.len() - 1;
        let ch = e.children;
        match parse_usize_spec(ps[i]) {
            Some(n) => if last {
                if n < ch.len() {
                    Ok(
                        (
                            with_children(e, ch.remove(n as int)),
                            match ch[n as int] {
                                NodeModel::Element(c) => Some(c),
                                _ => None,
                            },
                        ),
                    )
                } else {
                    Ok((e, None))
                }
            } else if n < ch.len() && ch[n as int] is Element {
                match xml_remove(ch[n as int]->Element_0, ps, i + 1) {
                    Ok((c, r)) => Ok(
                        (with_children(e, ch.update(n as int, NodeModel::Element(c))), r),
                    ),
                    Err(f) => Err(f),
                }
            } else {
                Err(XmlFault::IndexNotFound(n, i as usize))
            },
            None => {
                let k = first_element_named(ch, ps[i]);
                if k < 0 {
                    Err(XmlFault::KeyNotFound(i as usize))
                } else if last {
                    Ok((with_children(e, ch.remove(k)), Some(ch[k]->Element_0)))
                } else {
                    match xml_remove(ch[k]->Element_0, ps, i + 1) {
                        Ok((c, r)) => Ok((with_children(e, ch.update(k, NodeModel::Element(c))), r)),
                        Err(f) => Err(f),
                    }
                }
            },
        }
    }
}

fn copy_opt_string(o: &Option<String>) -> (r: Option<String>)
    ensures
        opt_str(r) == opt_str(*o),
{
    match o {
        Some(s) => Some(s.clone()),
        None => None,
    }
}

fn copy_pairs(v: &Vec<(String, String)>) -> (r: Vec<(String, String)>)
    ensures
        pairs_model(r@) == pairs_model(v@),
{
    let mut out: Vec<(String, String)> = Vec::new();
    let mut i: usize = 0;
    while i < v.len()
        invariant
            i <= v.len(),
            out.len() == i,
            forall|j: int|
                0 <= j < i ==> #[trigger] out@[j].0@ == v@[j].0@ && out@[j].1@ == v@[j].1@,
        decreases v.len() - i,
    {
        let a = v[i].0.clone();
        let b = v[i].1.clone();
        out.push((a, b));
        i = i + 1;
    }
    assert(pairs_model(out@) =~= pairs_model(v@));
    out
}

impl Element {
    /// A new element named `name`, with no namespace, attributes or children.
    pub fn new(name: &str) -> (r: Element)
        ensures
            r@ == named_element(name@),
    {
        let r = Element {
            prefix: None,
            namespace: None,
            namespaces: None,
            name: String::from_str(name),
            attributes: Vec::new(),
            children: Vec::new(),
        };
        assert(pairs_model(r.attributes@) =~= Seq::empty());
        assert(nodes_model(r.children@) =~= Seq::empty());
        r
    }

    /// A copy of the whole element.
    pub fn deep_copy(&self) -> (r: Element)
        ensures
            r@ == self@,
        decreases self,
    {
        let prefix = copy_opt_string(&self.prefix);
        let namespace = copy_opt_string(&self.namespace);
        let namespaces = match &self.namespaces {
            Some(v) => Some(copy_pairs(v)),
            None => None,
        };
        let name = self.name.clone();
        let attributes = copy_pairs(&self.attributes);
        let mut children: Vec<XMLNode> = Vec::new();
        let mut i: usize = 0;
        while i < self.children.len()
            invariant
                i <= self.children.len(),
                children.len() == i,
                forall|j: int| 0 <= j < i ==> #[trigger] children@[j].model() == self.children@[j].model(),
            decreases self.children.len() - i,
        {
            proof {
                assert(decreases_to!(*self => self.children));
                assert(decreases_to!(self.children => self.children@));
                assert(decreases_to!(self.children@ => self.children@[i as int]));
            }
            let c = self.children[i].deep_copy();
            children.push(c);
            i = i + 1;
        }
        assert forall|j: int| 0 <= j < self.children@.len() implies nodes_model(children@)[j]
            == nodes_model(self.children@)[j] by {
            assert(children@[j].model() == self.children@[j].model());
        }
        assert(nodes_model(children@) =~= nodes_model(self.children@));
        let r = Element { prefix, namespace, namespaces, name, attributes, children };
        r
    }
}

impl XMLNode {
    /// A copy of the whole node.
    pub fn deep_copy(&self) -> (r: XMLNode)
        ensures
            r.model() == self.model(),
        decreases self,
    {
        match self {
            XMLNode::Element(e) => {
                proof {
                    assert(decreases_to!(*self => self->Element_0));
                }
                XMLNode::Element(e.deep_copy())
            },
            XMLNode::Comment(s) => XMLNode::Comment(s.clone()),
            XMLNode::CData(s) => XMLNode::CData(s.clone()),
            XMLNode::Text(s) => XMLNode::Text(s.clone()),
            XMLNode::ProcessingInstruction(a, b) => XMLNode::ProcessingInstruction(
                a.clone(),
                copy_opt_string(b),
            ),
        }
    }
}

/// The position of the first child that is an element named `n`.
pub fn find_child_element(ch: &Vec<XMLNode>, n: &Vec<char>) -> (r: Option<usize>)
    ensures
        r matches Some(k) ==> k == first_element_named(nodes_model(ch@), n@) && k < ch@.len(),
        r is None ==> first_element_named(nodes_model(ch@), n@) == -1,
{
    let ghost nm = nodes_model(ch@);
    proof {
        lemma_first_element_named(nm, n@);
    }
    let mut i: usize = 0;
    while i < ch.len()
        invariant
            i <= ch.len(),
            nm == nodes_model(ch@),
            nm.len() == ch.len(),
            forall|j: int| 0 <= j < i ==> !is_element_named(nm[j], n@),
        decreases ch.len() - i,
    {
        match &ch[i] {
            XMLNode::Element(e) => {
                let nv = chars_of(e.name.as_str());
                if chars_eq(&nv, n) {
                    assert(is_element_named(nm[i as int], n@));
                    proof {
                        lemma_first_element_named(nm, n@);
                        let f = first_element_named(nm, n@);
                        if f < i {
                            assert(!is_element_named(nm[f], n@));
                        }
                    }
                    return Some(i);
                }
            },
            _ => {},
        }
        i = i + 1;
    }
    None
}

/// Follows `ps` through `e` for reading.
pub fn xml_get_exec(e: &Element, ps: &Vec<Vec<char>>) -> (r: Result<Option<Element>, (usize, usize)>)
    ensures
        match r {
            Ok(Some(x)) => xml_get(e@, views(ps@), 0) == Ok::<Option<ElementModel>, (usize, usize)>(
                Some(x@),
            ),
            Ok(None) => xml_get(e@, views(ps@), 0) == Ok::<Option<ElementModel>, (usize, usize)>(
                None,
            ),
            Err(p) => xml_get(e@, views(ps@), 0) == Err::<Option<ElementModel>, (usize, usize)>(p),
        },
{
    let ghost pv = views(ps@);
    let mut cur: &Element = e;
    let mut i: usize = 0;
    while i < ps.len()
        invariant
            i <= ps.len(),
            pv == views(ps@),
            xml_get(e@, pv, 0) == xml_get(cur@, pv, i as int),
        decreases ps.len() - i,
    {
        let part = &ps[i];
        assert(part@.subrange(0, part@.len() as int) =~= part@);
        match parse_usize(part, 0, part.len()) {
            Some(n) => {
                if n < cur.children.len() {
                    match &cur.children[n] {
                        XMLNode::Element(c) => {
                            cur = c;
                        },
                        _ => {
                            return Err((n, i));
                        },
                    }
                } else {
                    return Ok(None);
                }
            },
            None => {
                match find_child_element(&cur.children, part) {
                    Some(k) => {
                        match &cur.children[k] {
                            XMLNode::Element(c) => {
                                cur = c;
                            },
                            _ => {
                                proof {
                                    lemma_first_element_named(nodes_model(cur.children@), part@);
                                }
                                return Ok(None);
                            },
                        }
                    },
                    None => {
                        return Ok(None);
                    },
                }
            },
        }
        i = i + 1;
    }
    Ok(Some(cur.deep_copy()))
}

fn element_named(part: &Vec<char>) -> (r: Element)
    ensures
        r@ == named_element(part@),
{
    let r = Element {
        prefix: None,
        namespace: None,
        namespaces: None,
        name: string_of_all(part),
        attributes: Vec::new(),
        children: Vec::new(),
    };
    assert(pairs_model(r.attributes@) =~= Seq::empty());
    assert(nodes_model(r.children@) =~= Seq::empty());
    r
}

/// Writes `v` at `ps[i..]` into `e`.
pub fn xml_set_exec(e: Element, ps: &Vec<Vec<char>>, i: usize, v: Element) -> (r: Element)
    requires
        i < ps.len(),
        !xml_set_panics(e@, views(ps@), i as int),
    ensures
        r@ == xml_set(e@, views(ps@), i as int, v@),
    decreases ps.len() - i,
{
    let ghost pv = views(ps@);
    let ghost em = e@;
    let ghost vm = v@;
    let Element { prefix, namespace, namespaces, name, attributes, children } = e;
    let mut ch = children;
    let ghost cm = nodes_model(ch@);
    let last = i + 1 == ps.len();
    let part = &ps[i];
    assert(part@.subrange(0, part@.len() as int) =~= part@);
    match parse_usize(part, 0, part.len()) {
        Some(n) => {
            while ch.len() <= n
                invariant
                    cm.len() <= ch.len(),
                    cm.len() <= n ==> ch.len() <= n + 1 && nodes_model(ch@) == pad_nodes(
                        cm,
                        n as int,
                    ).take(ch.len() as int),
                    cm.len() > n ==> ch.len() == cm.len() && nodes_model(ch@) == cm,
                decreases n + 1 - ch.len(),
            {
                let item = Element::new("item");
                let ghost before = nodes_model(ch@);
                ch.push(XMLNode::Element(item));
                assert(nodes_model(ch@) =~= before.push(NodeModel::Element(named_element("item"@))));
                assert(nodes_model(ch@) =~= pad_nodes(cm, n as int).take(ch.len() as int));
            }
            let ghost padded = nodes_model(ch@);
            assert(padded =~= pad_nodes(cm, n as int));
            if last {
                ch.set(n, XMLNode::Element(v));
                assert(nodes_model(ch@) =~= padded.update(n as int, NodeModel::Element(vm)));
            } else {
                let node = ch.remove(n);
                assert(node.model() == padded[n as int]);
                match node {
                    XMLNode::Element(c) => {
                        let c2 = xml_set_exec(c, ps, i + 1, v);
                        let ghost c2m = c2@;
                        ch.insert(n, XMLNode::Element(c2));
                        assert(nodes_model(ch@) =~= padded.update(n as int, NodeModel::Element(c2m)));
                    },
                    other => {
                        ch.insert(n, other);
                    },
                }
            }
        },
        None => {
            match find_child_element(&ch, part) {
                Some(k) => {
                    proof {
                        lemma_first_element_named(cm, part@);
                    }
                    if last {
                        ch.set(k, XMLNode::Element(v));
                        assert(nodes_model(ch@) =~= cm.update(k as int, NodeModel::Element(vm)));
                    } else {
                        let node = ch.remove(k);
                        assert(node.model() == cm[k as int]);
                        match node {
                            XMLNode::Element(c) => {
                                let c2 = xml_set_exec(c, ps, i + 1, v);
                                let ghost c2m = c2@;
                                ch.insert(k, XMLNode::Element(c2));
                                assert(nodes_model(ch@) =~= cm.update(
                                    k as int,
                                    NodeModel::Element(c2m),
                                ));
                            },
                            other => {
                                ch.insert(k, other);
                            },
                        }
                    }
                },
                None => {
                    if last {
                        ch.push(XMLNode::Element(v));
                        assert(nodes_model(ch@) =~= cm.push(NodeModel::Element(vm)));
                    } else {
                        let fresh = element_named(part);
                        let c2 = xml_set_exec(fresh, ps, i + 1, v);
                        let ghost c2m = c2@;
                        ch.push(XMLNode::Element(c2));
                        assert(nodes_model(ch@) =~= cm.push(NodeModel::Element(c2m)));
                    }
                },
            }
        },
    }
    Element { prefix, namespace, namespaces, name, attributes, children: ch }
}

/// Removes at `ps[i..]` from `e`; gives back the new element and the
/// removed element, or on a fault the element as it was.
pub fn xml_remove_exec(e: Element, ps: &Vec<Vec<char>>, i: usize) -> (r: (
    Element,
    Result<Option<Element>, XmlFault>,
))
    requires
        i < ps.len(),
    ensures
        match r.1 {
            Ok(Some(x)) => xml_remove(e@, views(ps@), i as int) == Ok::<
                (ElementModel, Option<ElementModel>),
                XmlFault,
            >((r.0@, Some(x@))),
            Ok(None) => xml_remove(e@, views(ps@), i as int) == Ok::<
                (ElementModel, Option<ElementModel>),
                XmlFault,
            >((r.0@, None)),
            Err(f) => r.0@ == e@ && xml_remove(e@, views(ps@), i as int) == Err::<
                (ElementModel, Option<ElementModel>),
                XmlFault,
            >(f),
        },
    decreases ps.len() - i,
{
    let ghost pv = views(ps@);
    let ghost em = e@;
    let Element { prefix, namespace, namespaces, name, attributes, children } = e;
    let mut ch = children;
    let ghost cm = nodes_model(ch@);
    let last = i + 1 == ps.len();
    let part = &ps[i];
    assert(part@.subrange(0, part@.len() as int) =~= part@);
    let pos: usize;
    match parse_usize(part, 0, part.len()) {
        Some(n) => {
            if last {
                if n < ch.len() {
                    let node = ch.remove(n);
                    assert(nodes_model(ch@) =~= cm.remove(n as int));
                    assert(node.model() == cm[n as int]);
                    let out = match node {
                        XMLNode::Element(c) => Some(c),
                        _ => None,
                    };
                    return (
                        Element { prefix, namespace, namespaces, name, attributes, children: ch },
                        Ok(out),
                    );
                }
                return (
                    Element { prefix, namespace, namespaces, name, attributes, children: ch },
                    Ok(None),
                );
            }
            let is_elem = n < ch.len() && match &ch[n] {
                XMLNode::Element(_) => true,
                _ => false,
            };
            if !is_elem {
                return (
                    Element { prefix, namespace, namespaces, name, attributes, children: ch },
                    Err(XmlFault::IndexNotFound(n, i)),
                );
            }
            pos = n;
        },
        None => {
            match find_child_element(&ch, part) {
                None => {
                    return (
                        Element { prefix, namespace, namespaces, name, attributes, children: ch },
                        Err(XmlFault::KeyNotFound(i)),
                    );
                },
                Some(k) => {
                    proof {
                        lemma_first_element_named(cm, part@);
                    }
                    if last {
                        let node = ch.remove(k);
                        assert(nodes_model(ch@) =~= cm.remove(k as int));
                        assert(node.model() == cm[k as int]);
                        let out = match node {
                            XMLNode::Element(c) => Some(c),
                            _ => None,
                        };
                        return (
                            Element { prefix, namespace, namespaces, name, attributes, children: ch },
                            Ok(out),
                        );
                    }
                    pos = k;
                },
            }
        },
    }
    assert(cm[pos as int] is Element);
    let node = ch.remove(pos);
    assert(node.model() == cm[pos as int]);
    match node {
        XMLNode::Element(c) => {
            let (c2, r) = xml_remove_exec(c, ps, i + 1);
            let ghost c2m = c2@;
            ch.insert(pos, XMLNode::Element(c2));
            match r {
                Err(_) => {
                    assert(nodes_model(ch@) =~= cm);
                },
                _ => {
                    assert(nodes_model(ch@) =~= cm.update(pos as int, NodeModel::Element(c2m)));
                },
            }
            (Element { prefix, namespace, namespaces, name, attributes, children: ch }, r)
        },
        other => {
            ch.insert(pos, other);
            assert(nodes_model(ch@) =~= cm);
            (Element { prefix, namespace, namespaces, name, attributes, children: ch }, Ok(None))
        },
    }
}

/// The message for reading onto a child that is no element.
pub open spec fn xml_get_message(f: (usize, usize)) -> Seq<char> {
    "Index '"@ + decimal(f.0 as nat) + "' is not an element at position "@ + decimal(f.1 as nat)
}

/// The message of an XML removal fault.
pub open spec fn xml_fault_message(ps: Seq<Seq<char>>, f: XmlFault) -> Seq<char> {
    match f {
        XmlFault::IndexNotFound(n, i) => "Index '"@ + decimal(n as nat) + "' not found at position "@
            + decimal(i as nat),
        XmlFault::KeyNotFound(i) => "Key '"@ + ps[i as int] + "' not found at position "@ + decimal(
            i as nat,
        ),
    }
}

/// Law: an XML removal that gives an element back gives what a read at
/// that path gave before.
#[verifier::spinoff_prover]
pub proof fn law_xml_remove_gives_what_get_gave(e: ElementModel, ps: Seq<Seq<char>>, i: int)
    requires
        0 <= i,
    ensures
        xml_remove(e, ps, i) matches Ok((_, Some(x))) ==> xml_get(e, ps, i)
            == Ok::<Option<ElementModel>, (usize, usize)>(Some(x)),
    decreases ps.len() - i,
{
    if i < ps.len() {
        let last = i == ps.len() - 1;
        let ch = e.children;
        match parse_usize_spec(ps[i]) {
            Some(n) => {
                if !last && n < ch.len() && ch[n as int] is Element {
                    law_xml_remove_gives_what_get_gave(ch[n as int]->Element_0, ps, i + 1);
                }
            },
            None => {
                let k = first_element_named(ch, ps[i]);
                lemma_first_element_named(ch, ps[i]);
                if k >= 0 && !last {
                    law_xml_remove_gives_what_get_gave(ch[k]->Element_0, ps, i + 1);
                }
            },
        }
    }
}

/// Lemma: the faults of an XML removal name a part of the path.
pub proof fn lemma_xml_fault_in_path(e: ElementModel, ps: Seq<Seq<char>>, i: int)
    requires
        0 <= i,
    ensures
        xml_remove(e, ps, i) matches Err(f) ==> (match f {
            XmlFault::IndexNotFound(_, j) => j < ps.len(),
            XmlFault::KeyNotFound(j) => j < ps.len(),
        }),
    decreases ps.len() - i,
{
    if i < ps.len() {
        let ch = e.children;
        match parse_usize_spec(ps[i]) {
            Some(n) => {
                if n < ch.len() && ch[n as int] is Element {
                    lemma_xml_fault_in_path(ch[n as int]->Element_0, ps, i + 1);
                }
            },
            None => {
                let k = first_element_named(ch, ps[i]);
                if k >= 0 {
                    lemma_first_element_named(ch, ps[i]);
                    lemma_xml_fault_in_path(ch[k]->Element_0, ps, i + 1);
                }
            },
        }
    }
}

/// Lemma: the first element child named `n` is at `k` when `k` holds one
/// and no earlier child does.
pub proof fn lemma_first_named_at(ch: Seq<NodeModel>, n: Seq<char>, k: int)
    requires
        0 <= k < ch.len(),
        is_element_named(ch[k], n),
        forall|j: int| 0 <= j < k ==> !is_element_named(ch[j], n),
    ensures
        first_element_named(ch, n) == k,
{
    lemma_first_element_named(ch, n);
    let f = first_element_named(ch, n);
    if f != k {
        if f >= 0 && f < k {
            assert(!is_element_named(ch[f], n));
        }
    }
}

/// Lemma: writing keeps the element's name.
pub proof fn lemma_xml_set_keeps_name(e: ElementModel, ps: Seq<Seq<char>>, i: int, v: ElementModel)
    ensures
        xml_set(e, ps, i, v).name == e.name,
{
}

/// Law: a write at a path is read back at that path, provided the value
/// bears the name of the last part when that part is a name (reading by
/// name looks for an element so named).
pub proof fn law_xml_get_after_set(e: ElementModel, ps: Seq<Seq<char>>, i: int, v: ElementModel)
    requires
        0 <= i < ps.len(),
        !xml_set_panics(e, ps, i),
        parse_usize_spec(ps.last()) is None ==> v.name == ps.last(),
    ensures
        xml_get(xml_set(e, ps, i, v), ps, i) == Ok::<Option<ElementModel>, (usize, usize)>(Some(v)),
    decreases ps.len() - i,
{
    let last = i == ps.len() - 1;
    let ch = e.children;
    let r = xml_set(e, ps, i, v);
    match parse_usize_spec(ps[i]) {
        Some(n) => {
            let padded = pad_nodes(ch, n as int);
            assert(padded.len() > n);
            if !last {
                let c = padded[n as int]->Element_0;
                law_xml_get_after_set(c, ps, i + 1, v);
                let ch2 = padded.update(n as int, NodeModel::Element(xml_set(c, ps, i + 1, v)));
                assert(r.children == ch2);
                assert(xml_get(r, ps, i) == xml_get(xml_set(c, ps, i + 1, v), ps, i + 1));
            } else {
                let ch2 = padded.update(n as int, NodeModel::Element(v));
                assert(r.children == ch2);
                assert(xml_get(r, ps, i) == xml_get(v, ps, i + 1));
            }
        },
        None => {
            lemma_first_element_named(ch, ps[i]);
            let k = first_element_named(ch, ps[i]);
            if k >= 0 {
                let newc = if last {
                    v
                } else {
                    let c = ch[k]->Element_0;
                    law_xml_get_after_set(c, ps, i + 1, v);
                    lemma_xml_set_keeps_name(c, ps, i + 1, v);
                    xml_set(c, ps, i + 1, v)
                };
                let ch2 = ch.update(k, NodeModel::Element(newc));
                assert(r.children == ch2);
                assert forall|j: int| 0 <= j < k implies !is_element_named(ch2[j], ps[i]) by {
                    assert(ch2[j] == ch[j]);
                }
                lemma_first_named_at(ch2, ps[i], k);
                assert(xml_get(r, ps, i) == xml_get(newc, ps, i + 1));
            } else {
                let newc = if last {
                    v
                } else {
                    let c = named_element(ps[i]);
                    law_xml_get_after_set(c, ps, i + 1, v);
                    lemma_xml_set_keeps_name(c, ps, i + 1, v);
                    xml_set(c, ps, i + 1, v)
                };
                let ch2 = ch.push(NodeModel::Element(newc));
                assert(r.children == ch2);
                assert forall|j: int| 0 <= j < ch.len() implies !is_element_named(
                    ch2[j],
                    ps[i],
                ) by {
                    assert(ch2[j] == ch[j]);
                }
                lemma_first_named_at(ch2, ps[i], ch.len() as int);
                assert(xml_get(r, ps, i) == xml_get(newc, ps, i + 1));
            }
        },
    }
}

/// The child that `part` selects among `ch`: the child at an index below
/// their number, or the first element child so named; -1 when none.
pub open spec fn xml_child_at(ch: Seq<NodeModel>, part: Seq<char>) -> int {
    match parse_usize_spec(part) {
        Some(n) => if n < ch.len() {
            n as int
        } else {
            -1
        },
        None => first_element_named(ch, part),
    }
}

/// The element a child node is, if it is one.
pub open spec fn node_element(x: NodeModel) -> Option<ElementModel> {
    match x {
        NodeModel::Element(c) => Some(c),
        _ => None,
    }
}

/// Lemma: a removal keeps the element's name.
pub proof fn lemma_xml_remove_keeps_name(e: ElementModel, ps: Seq<Seq<char>>, i: int)
    ensures
        xml_remove(e, ps, i) matches Ok((m, _)) ==> m.name == e.name,
{
}

/// Law: a removal takes the child that the last part of the path selects
/// out of the element the path leads into (read at the path without its
/// last part): that element loses exactly that child, one fewer, the
/// others in their order and all else kept, and the child is given back
/// when it is an element. When the last part selects no child, nothing
/// changes and nothing is given back.
pub proof fn law_xml_remove_takes_out(e: ElementModel, ps: Seq<Seq<char>>, i: int)
    requires
        0 <= i < ps.len(),
    ensures
        xml_remove(e, ps, i) matches Ok((m, r)) ==> (xml_get(e, ps.drop_last(), i) matches Ok(
            Some(pe),
        ) && xml_get(m, ps.drop_last(), i) matches Ok(Some(pm)) && (if xml_child_at(
            pe.children,
            ps.last(),
        ) >= 0 {
            &&& taken_out(pe.children, pm.children, xml_child_at(pe.children, ps.last()))
            &&& pm == with_children(pe, pm.children)
            &&& r == node_element(pe.children[xml_child_at(pe.children, ps.last())])
        } else {
            pm == pe && r is None
        })),
    decreases ps.len() - i,
{
    let last = i == ps.len() - 1;
    let q = ps.drop_last();
    let ch = e.children;
    match parse_usize_spec(ps[i]) {
        Some(n) => {
            if last {
                assert(ps.last() == ps[i]);
            } else if n < ch.len() && ch[n as int] is Element {
                assert(q[i] == ps[i]);
                let c0 = ch[n as int]->Element_0;
                law_xml_remove_takes_out(c0, ps, i + 1);
                if let Ok((c, r)) = xml_remove(c0, ps, i + 1) {
                    let m = with_children(e, ch.update(n as int, NodeModel::Element(c)));
                    assert(xml_get(m, q, i) == xml_get(c, q, i + 1));
                    assert(xml_get(e, q, i) == xml_get(c0, q, i + 1));
                }
            }
        },
        None => {
            let k = first_element_named(ch, ps[i]);
            lemma_first_element_named(ch, ps[i]);
            if k >= 0 {
                if last {
                    assert(ps.last() == ps[i]);
                } else {
                    assert(q[i] == ps[i]);
                    let c0 = ch[k]->Element_0;
                    law_xml_remove_takes_out(c0, ps, i + 1);
                    lemma_xml_remove_keeps_name(c0, ps, i + 1);
                    if let Ok((c, r)) = xml_remove(c0, ps, i + 1) {
                        let ch2 = ch.update(k, NodeModel::Element(c));
                        let m = with_children(e, ch2);
                        assert forall|j: int| 0 <= j < k implies !is_element_named(ch2[j], ps[i]) by {
                            assert(ch2[j] == ch[j]);
                        }
                        lemma_first_named_at(ch2, ps[i], k);
                        assert(xml_get(m, q, i) == xml_get(c, q, i + 1));
                        assert(xml_get(e, q, i) == xml_get(c0, q, i + 1));
                    }
                }
            }
        },
    }
}

/// Law: one step of an XML read. An index below the number of children
/// reads that child further when it is an element and is refused (with
/// the index and the position) when it is not; an index past the end
/// reads nothing. A name reads the first element child so named further,
/// and nothing when no element child has it.
pub proof fn law_xml_get_steps(e: ElementModel, ps: Seq<Seq<char>>, i: int)
    requires
        0 <= i < ps.len(),
    ensures
        parse_usize_spec(ps[i]) matches Some(n) ==> (if n < e.children.len() {
            match e.children[n as int] {
                NodeModel::Element(c) => xml_get(e, ps, i) == xml_get(c, ps, i + 1),
                _ => xml_get(e, ps, i) == Err::<Option<ElementModel>, (usize, usize)>(
                    (n, i as usize),
                ),
            }
        } else {
            xml_get(e, ps, i) == Ok::<Option<ElementModel>, (usize, usize)>(None)
        }),
        parse_usize_spec(ps[i]) is None ==> (forall|k: int|
            0 <= k < e.children.len() && is_element_named(#[trigger] e.children[k], ps[i]) && (
            forall|j: int| 0 <= j < k ==> !is_element_named(e.children[j], ps[i])) ==> xml_get(
                e,
                ps,
                i,
            ) == xml_get(e.children[k]->Element_0, ps, i + 1)),
        parse_usize_spec(ps[i]) is None && (forall|k: int|
            0 <= k < e.children.len() ==> !is_element_named(#[trigger] e.children[k], ps[i]))
            ==> xml_get(e, ps, i) == Ok::<Option<ElementModel>, (usize, usize)>(None),
{
    lemma_first_element_named(e.children, ps[i]);
    assert forall|k: int|
        0 <= k < e.children.len() && is_element_named(#[trigger] e.children[k], ps[i]) && (forall|
            j: int,
        | 0 <= j < k ==> !is_element_named(e.children[j], ps[i])) implies first_element_named(
        e.children,
        ps[i],
    ) == k by {
        lemma_first_named_at(e.children, ps[i], k);
    }
}

/// Law: an XML write at the last part of a path. An index sets that
/// child to the value, after padding the children with `item` elements
/// up to it; a name replaces the first element child so named, or adds
/// the value after the other children when none has it. Everything else
/// of the element is kept.
pub proof fn law_xml_set_last(e: ElementModel, ps: Seq<Seq<char>>, v: ElementModel)
    requires
        ps.len() > 0,
    ensures
        parse_usize_spec(ps.last()) matches Some(n) ==> xml_set(e, ps, ps.len() - 1, v)
            == with_children(
            e,
            pad_nodes(e.children, n as int).update(n as int, NodeModel::Element(v)),
        ),
        parse_usize_spec(ps.last()) is None ==> (forall|k: int|
            0 <= k < e.children.len() && is_element_named(#[trigger] e.children[k], ps.last()) && (
            forall|j: int| 0 <= j < k ==> !is_element_named(e.children[j], ps.last()))
                ==> xml_set(e, ps, ps.len() - 1, v) == with_children(
                e,
                e.children.update(k, NodeModel::Element(v)),
            )),
        parse_usize_spec(ps.last()) is None && (forall|k: int|
            0 <= k < e.children.len() ==> !is_element_named(#[trigger] e.children[k], ps.last()))
            ==> xml_set(e, ps, ps.len() - 1, v) == with_children(
            e,
            e.children.push(NodeModel::Element(v)),
        ),
{
    let i = ps.len() - 1;
    assert(ps.last() == ps[i]);
    lemma_first_element_named(e.children, ps[i]);
    assert forall|k: int|
        0 <= k < e.children.len() && is_element_named(#[trigger] e.children[k], ps[i]) && (forall|
            j: int,
        | 0 <= j < k ==> !is_element_named(e.children[j], ps[i])) implies first_element_named(
        e.children,
        ps[i],
    ) == k by {
        lemma_first_named_at(e.children, ps[i], k);
    }
}

/// Reading, writing and removing in an XML element by path.
pub trait XmlModifier: Sized + View<V = ElementModel> {
    /// The element at `path`: an index selects a child by position, a
    /// name the first element child so named.
    fn get(&self, path: &str) -> (r: Result<Option<Self>, String>)
        ensures
            match xml_get(self@, path_parts(path@), 0) {
                Ok(Some(m)) => r matches Ok(Some(x)) && x@ == m,
                Ok(None) => r matches Ok(None),
                Err(f) => r matches Err(s) && s@ == xml_get_message(f),
            },
    ;

    /// Writes `value` at `path`, padding with `item` elements and adding
    /// named elements on the way. A write that would step by index onto a
    /// child that is no element is left out.
    fn set(&mut self, path: &str, value: Self) -> (r: Result<(), String>)
        requires
            !xml_set_panics(old(self)@, path_parts(path@), 0),
        ensures
            r is Ok,
            final(self)@ == xml_set(old(self)@, path_parts(path@), 0, value@),
    ;

    /// Removes the child at `path`, giving it back when it is an element.
    fn remove(&mut self, path: &str) -> (r: Result<Option<Self>, String>)
        ensures
            match xml_remove(old(self)@, path_parts(path@), 0) {
                Ok((m, Some(x))) => final(self)@ == m && (r matches Ok(Some(y)) && y@ == x),
                Ok((m, None)) => final(self)@ == m && r matches Ok(None),
                Err(f) => final(self)@ == old(self)@ && (r matches Err(s) && s@
                    == xml_fault_message(path_parts(path@), f)),
            },
    ;
}

impl XmlModifier for Element {
    fn get(&self, path: &str) -> (r: Result<Option<Element>, String>) {
        let pv = chars_of(path);
        let parts = PathParser::parse_path(&pv);
        match xml_get_exec(self, &parts) {
            Ok(x) => Ok(x),
            Err((n, i)) => {
                let mut m = owned("Index '");
                push_decimal(&mut m, n);
                m.append("' is not an element at position ");
                push_decimal(&mut m, i);
                Err(m)
            },
        }
    }

    fn set(&mut self, path: &str, value: Element) -> (r: Result<(), String>) {
        let pv = chars_of(path);
        let parts = PathParser::parse_path(&pv);
        if parts.len() == 0 {
            return Ok(());
        }
        let mut cur = Element::new("");
        std::mem::swap(self, &mut cur);
        let next = xml_set_exec(cur, &parts, 0, value);
        *self = next;
        Ok(())
    }

    fn remove(&mut self, path: &str) -> (r: Result<Option<Element>, String>) {
        let pv = chars_of(path);
        let parts = PathParser::parse_path(&pv);
        let ghost ps = views(parts@);
        if parts.len() == 0 {
            return Ok(None);
        }
        proof {
            lemma_xml_fault_in_path(self@, ps, 0);
        }
        let mut cur = Element::new("");
        std::mem::swap(self, &mut cur);
        let (next, r) = xml_remove_exec(cur, &parts, 0);
        *self = next;
        match r {
            Ok(x) => Ok(x),
            Err(XmlFault::IndexNotFound(n, i)) => {
                let mut m = owned("Index '");
                push_decimal(&mut m, n);
                m.append("' not found at position ");
                push_decimal(&mut m, i);
                Err(m)
            },
            Err(XmlFault::KeyNotFound(i)) => {
                let mut m = owned("Key '");
                let p = part_string(&parts, i);
                m.append(p.as_str());
                m.append("' not found at position ");
                push_decimal(&mut m, i);
                Err(m)
            },
        }
    }
}

} // verus!

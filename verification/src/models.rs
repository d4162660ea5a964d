//! The schema model and the runtime value tree.
//!
//! Both maps are association vectors — ordered `(key, value)` pairs looked up
//! by first match — so the whole data model stays deterministic: ingestion
//! output depends on nothing but the input values and their order.

use vstd::prelude::*;
use vstd::std_specs::vec::vec_index_mut;

use crate::text::str_eq;

verus! {

/// First index whose key equals `k`, or `cs.len()` when no key does.
pub open spec fn model_find<X>(cs: Seq<(Seq<char>, X)>, k: Seq<char>) -> int
    decreases cs.len(),
{
    if cs.len() == 0 {
        0
    } else if cs[0].0 == k {
        0
    } else {
        1 + model_find(cs.drop_first(), k)
    }
}

/// What [`model_find`] returns: the first match, or the length.
pub proof fn lemma_model_find<X>(cs: Seq<(Seq<char>, X)>, k: Seq<char>)
    ensures
        0 <= model_find(cs, k) <= cs.len(),
        model_find(cs, k) < cs.len() ==> cs[model_find(cs, k)].0 == k,
        forall|j: int| 0 <= j < model_find(cs, k) ==> cs[j].0 != k,
    decreases cs.len(),
{
    if cs.len() > 0 && cs[0].0 != k {
        lemma_model_find(cs.drop_first(), k);
        assert forall|j: int| 0 <= j < model_find(cs, k) implies cs[j].0 != k by {
            if j > 0 {
                assert(cs.drop_first()[j - 1] == cs[j]);
            }
        }
    }
}

/// A first match at `i` pins [`model_find`] to `i`; no match pins it to the
/// length.
pub proof fn lemma_model_find_is<X>(cs: Seq<(Seq<char>, X)>, k: Seq<char>, i: int)
    requires
        0 <= i <= cs.len(),
        forall|j: int| 0 <= j < i ==> cs[j].0 != k,
        i < cs.len() ==> cs[i].0 == k,
    ensures
        model_find(cs, k) == i,
    decreases cs.len(),
{
    if cs.len() == 0 {
    } else if cs[0].0 == k {
        assert(i == 0);
    } else {
        assert(i >= 1) by {
            assert(cs[0].0 != k);
        }
        lemma_model_find_is(cs.drop_first(), k, i - 1);
    }
}

/// The value at the first matching key, if any.
pub open spec fn model_get<X>(cs: Seq<(Seq<char>, X)>, k: Seq<char>) -> Option<X> {
    if model_find(cs, k) < cs.len() {
        Some(cs[model_find(cs, k)].1)
    } else {
        None
    }
}

/// Replace the value at the first matching key, or append a new pair.
pub open spec fn model_upsert<X>(cs: Seq<(Seq<char>, X)>, k: Seq<char>, v: X) -> Seq<
    (Seq<char>, X),
> {
    let i = model_find(cs, k);
    if i < cs.len() {
        cs.update(i, (cs[i].0, v))
    } else {
        cs.push((k, v))
    }
}

/// Scan an association vector for the first entry whose key reads as `k`.
pub fn assoc_find_idx<X>(m: &Vec<(String, X)>, k: &str) -> (i: usize)
    ensures
        0 <= i <= m@.len(),
        forall|j: int| 0 <= j < i ==> m@[j].0@ != k@,
        i < m@.len() ==> m@[i as int].0@ == k@,
{
    let n = m.len();
    let mut i: usize = 0;
    while i < n
        invariant
            n == m@.len(),
            0 <= i <= n,
            forall|j: int| 0 <= j < i ==> m@[j].0@ != k@,
        decreases n - i,
    {
        if str_eq(m[i].0.as_str(), k) {
            return i;
        }
        i += 1;
    }
    i
}

/// The view of a string-to-string association vector: both sides as
/// character sequences.
pub open spec fn sv_model(m: Seq<(String, String)>) -> Seq<(Seq<char>, Seq<char>)> {
    m.map_values(|p: (String, String)| (p.0@, p.1@))
}

/// Replace the value at the first key reading as `k`, or append the pair;
/// mirrors [`model_upsert`] on the view.
pub fn assoc_upsert(m: &mut Vec<(String, String)>, k: &str, v: String)
    ensures
        sv_model(final(m)@) == model_upsert(sv_model(old(m)@), k@, v@),
{
    let j = assoc_find_idx(m, k);
    proof {
        lemma_model_find_is(sv_model(m@), k@, j as int);
    }
    if j < m.len() {
        let e = vec_index_mut(m, j);
        e.1 = v;
        proof {
            assert(sv_model(m@) =~= model_upsert(sv_model(old(m)@), k@, v@));
        }
    } else {
        let owned = k.to_owned();
        m.push((owned, v));
        proof {
            assert(sv_model(m@) =~= model_upsert(sv_model(old(m)@), k@, v@));
        }
    }
}

/// The view of a header-to-path association vector.
pub open spec fn map_model(m: Seq<(String, Vec<String>)>) -> Seq<(Seq<char>, Seq<Seq<char>>)> {
    m.map_values(|p: (String, Vec<String>)| (p.0@, p.1.deep_view()))
}

/// A by-entry copy of a string vector, views preserved.
pub fn clone_string_vec(v: &Vec<String>) -> (r: Vec<String>)
    ensures
        r.deep_view() == v.deep_view(),
        r@.len() == v@.len(),
{
    let mut r: Vec<String> = Vec::new();
    let n = v.len();
    let mut i: usize = 0;
    while i < n
        invariant
            n == v@.len(),
            0 <= i <= n,
            r@.len() == i,
            forall|j: int| 0 <= j < i ==> r@[j]@ == v@[j]@,
        decreases n - i,
    {
        let s = v[i].clone();
        r.push(s);
        i += 1;
    }
    proof {
        assert(r.deep_view() =~= v.deep_view());
    }
    r
}

/// One group of the schema: exact member fields, an optional header pattern,
/// and named subgroups.
#[derive(Debug)]
pub struct FieldGroup {
    pub fields: Vec<String>,
    pub field_pattern: Option<String>,
    pub children: Vec<(String, FieldGroup)>,
}

/// The resolved shape of one configuration entry before it becomes a
/// [`FieldGroup`]: optional parts exactly as the configuration file leaves
/// them.
#[derive(Debug)]
pub struct RawGroup {
    pub fields: Option<Vec<String>>,
    pub field_pattern: Option<String>,
    pub subgroups: Option<Vec<(String, RawGroup)>>,
}

/// `g` is the faithful translation of `raw`: missing field lists become
/// empty, the pattern is kept, and the subgroups are translated in order.
pub open spec fn from_raw_rel(raw: RawGroup, g: FieldGroup) -> bool
    decreases raw,
    via from_raw_rel_decreases
{
    &&& g.fields@ == match raw.fields {
        Some(f) => f@,
        None => Seq::<String>::empty(),
    }
    &&& g.field_pattern == raw.field_pattern
    &&& match raw.subgroups {
        Some(s) => from_raw_subs_rel(s@, g.children@),
        None => g.children@.len() == 0,
    }
}

#[via_fn]
proof fn from_raw_rel_decreases(raw: RawGroup, g: FieldGroup) {
    match raw.subgroups {
        Some(s) => {
            assert(decreases_to!(raw => s));
            assert(decreases_to!(s => s@));
        },
        None => {},
    }
}

/// Pointwise [`from_raw_rel`] over subgroup vectors.
pub open spec fn from_raw_subs_rel(rs: Seq<(String, RawGroup)>, gs: Seq<(String, FieldGroup)>) -> bool
    decreases rs,
{
    if rs.len() == 0 {
        gs.len() == 0
    } else {
        &&& gs.len() == rs.len()
        &&& gs.last().0 == rs.last().0
        &&& from_raw_rel(rs.last().1, gs.last().1)
        &&& from_raw_subs_rel(rs.drop_last(), gs.drop_last())
    }
}

impl FieldGroup {
    /// A leaf group with the given members and pattern and no subgroups.
    pub fn new(fields: Vec<String>, field_pattern: Option<String>) -> (r: Self)
        ensures
            r.fields == fields,
            r.field_pattern == field_pattern,
            r.children@ == Seq::<(String, FieldGroup)>::empty(),
    {
        FieldGroup { fields, field_pattern, children: Vec::new() }
    }

    /// Translate a configuration entry, subgroups included, in order.
    pub fn from_raw(raw: &RawGroup) -> (r: Self)
        ensures
            from_raw_rel(*raw, r),
        decreases *raw,
    {
        let fields: Vec<String> = match &raw.fields {
            Some(f) => f.clone(),
            None => Vec::new(),
        };
        let field_pattern: Option<String> = raw.field_pattern.clone();
        proof {
            if raw.fields is Some {
                assert(fields@ =~= raw.fields->Some_0@);
            }
        }
        let mut group = FieldGroup::new(fields, field_pattern);
        match &raw.subgroups {
            Some(subs) => {
                let n = subs.len();
                let mut i: usize = 0;
                while i < n
                    invariant
                        n == subs@.len(),
                        0 <= i <= n,
                        subs@ == raw.subgroups->Some_0@,
                        raw.subgroups matches Some(s) && s@ == subs@,
                        group.children@.len() == i,
                        from_raw_subs_rel(subs@.subrange(0, i as int), group.children@),
                        group.fields@ == match raw.fields {
                            Some(f) => f@,
                            None => Seq::<String>::empty(),
                        },
                        group.field_pattern == raw.field_pattern,
                    decreases n - i,
                {
                    let ghost prev = group.children@;
                    let sub = FieldGroup::from_raw(&subs[i].1);
                    let name = subs[i].0.clone();
                    group.children.push((name, sub));
                    proof {
                        let rs = subs@.subrange(0, i as int + 1);
                        assert(rs.drop_last() =~= subs@.subrange(0, i as int));
                        assert(rs.last() == subs@[i as int]);
                        assert(group.children@.drop_last() =~= prev);
                        assert(group.children@.last() == (name, sub));
                        assert(from_raw_subs_rel(rs, group.children@));
                    }
                    i += 1;
                }
                proof {
                    assert(subs@.subrange(0, n as int) =~= subs@);
                }
            },
            None => {
                proof {
                    assert(from_raw_subs_rel(
                        Seq::<(String, RawGroup)>::empty(),
                        group.children@,
                    ));
                }
            },
        }
        group
    }
}

/// The schema forest: top-level groups in declaration order.
#[derive(Debug)]
pub struct GroupsConfig {
    pub groups: Vec<(String, FieldGroup)>,
}

impl GroupsConfig {
    /// Wrap an already-resolved forest.
    pub fn new(groups: Vec<(String, FieldGroup)>) -> (r: Self)
        ensures
            r.groups == groups,
    {
        GroupsConfig { groups }
    }
}

/// One node of a record's value tree: field values and nested groups.
#[derive(Debug)]
pub struct DataGroup {
    pub fields: Vec<(String, String)>,
    pub children: Vec<(String, DataGroup)>,
}

/// The mathematical shape of a [`DataGroup`]: the same tree over character
/// sequences.
pub struct DataGroupModel {
    pub fields: Seq<(Seq<char>, Seq<char>)>,
    pub children: Seq<(Seq<char>, DataGroupModel)>,
}

/// The model of a value tree.
pub open spec fn dg_model(d: DataGroup) -> DataGroupModel
    decreases d,
    via dg_model_decreases
{
    DataGroupModel {
        fields: sv_model(d.fields@),
        children: dg_children_model(d.children@),
    }
}

#[via_fn]
proof fn dg_model_decreases(d: DataGroup) {
    assert(decreases_to!(d => d.children));
    assert(decreases_to!(d.children => d.children@));
}

/// The models of a child vector, in order.
pub open spec fn dg_children_model(cs: Seq<(String, DataGroup)>) -> Seq<(Seq<char>, DataGroupModel)>
    decreases cs,
{
    if cs.len() == 0 {
        Seq::empty()
    } else {
        dg_children_model(cs.drop_last()).push((cs.last().0@, dg_model(cs.last().1)))
    }
}

/// [`dg_children_model`] maps each entry in place.
pub proof fn lemma_dg_children_model_index(cs: Seq<(String, DataGroup)>)
    ensures
        dg_children_model(cs).len() == cs.len(),
        forall|i: int|
            0 <= i < cs.len() ==> dg_children_model(cs)[i] == (cs[i].0@, dg_model(cs[i].1)),
    decreases cs.len(),
{
    if cs.len() > 0 {
        lemma_dg_children_model_index(cs.drop_last());
    }
}

impl View for DataGroup {
    type V = DataGroupModel;

    open spec fn view(&self) -> DataGroupModel {
        dg_model(*self)
    }
}

/// The empty tree.
pub open spec fn empty_model() -> DataGroupModel {
    DataGroupModel { fields: Seq::empty(), children: Seq::empty() }
}

/// Store `value` under `field` at the end of `path[i..]`, creating or
/// reusing intermediate child nodes.
pub open spec fn spec_dg_insert(
    m: DataGroupModel,
    path: Seq<Seq<char>>,
    i: int,
    field: Seq<char>,
    value: Seq<char>,
) -> DataGroupModel
    decreases path.len() - i,
{
    if i < 0 || i >= path.len() {
        DataGroupModel { fields: model_upsert(m.fields, field, value), children: m.children }
    } else {
        let child = match model_get(m.children, path[i]) {
            Some(c) => c,
            None => empty_model(),
        };
        let child2 = spec_dg_insert(child, path, i + 1, field, value);
        DataGroupModel { fields: m.fields, children: model_upsert(m.children, path[i], child2) }
    }
}

impl DataGroup {
    /// A tree with no fields and no children.
    pub fn new() -> (r: Self)
        ensures
            r@ == empty_model(),
            r.fields@ == Seq::<(String, String)>::empty(),
            r.children@ == Seq::<(String, DataGroup)>::empty(),
    {
        let r = DataGroup { fields: Vec::new(), children: Vec::new() };
        proof {
            assert(sv_model(r.fields@) =~= Seq::<(Seq<char>, Seq<char>)>::empty());
        }
        r
    }

    /// Walk `remaining_path`, creating child nodes as needed, and set
    /// `fields[field_name] = value` in the final node (last write wins).
    pub fn insert(&mut self, remaining_path: &[String], field_name: &str, value: String)
        ensures
            final(self)@ == spec_dg_insert(
                old(self)@,
                remaining_path@.map_values(|s: String| s@),
                0,
                field_name@,
                value@,
            ),
    {
        self.insert_at(remaining_path, 0, field_name, value);
    }

    /// [`DataGroup::insert`] from position `i` of the path onward.
    pub(crate) fn insert_at(&mut self, path: &[String], i: usize, field_name: &str, value: String)
        requires
            i <= path@.len(),
        ensures
            final(self)@ == spec_dg_insert(
                old(self)@,
                path@.map_values(|s: String| s@),
                i as int,
                field_name@,
                value@,
            ),
        decreases path@.len() - i,
    {
        let ghost spath = path@.map_values(|s: String| s@);
        let n = path.len();
        if i >= n {
            let j = assoc_find_idx(&self.fields, field_name);
            let ghost mfields = old(self)@.fields;
            proof {
                assert(mfields == self.fields@.map_values(|p: (String, String)| (p.0@, p.1@)));
                lemma_model_find_is(mfields, field_name@, j as int);
            }
            if j < self.fields.len() {
                let e = vec_index_mut(&mut self.fields, j);
                e.1 = value;
                proof {
                    assert(sv_model(self.fields@) =~= model_upsert(mfields, field_name@, value@));
                }
            } else {
                let owned = field_name.to_owned();
                self.fields.push((owned, value));
                proof {
                    assert(sv_model(self.fields@) =~= model_upsert(mfields, field_name@, value@));
                }
            }
            proof {
                assert(dg_children_model(self.children@) == dg_children_model(old(self).children@));
            }
        } else {
            let seg: &String = vstd::slice::slice_index_get(path, i);
            let j = assoc_find_idx(&self.children, seg.as_str());
            let ghost mchildren = old(self)@.children;
            proof {
                lemma_dg_children_model_index(old(self).children@);
                lemma_model_find_is(mchildren, seg@, j as int);
                assert(spath[i as int] == seg@);
            }
            if j < self.children.len() {
                let ghost oldchild = self.children@[j as int].1;
                let e = vec_index_mut(&mut self.children, j);
                e.1.insert_at(path, i + 1, field_name, value);
                proof {
                    assert(mchildren[j as int].1 == dg_model(oldchild));
                    assert(model_get(mchildren, seg@) == Some(dg_model(oldchild)));
                    lemma_dg_children_model_index(self.children@);
                    assert(dg_children_model(self.children@) =~= model_upsert(
                        mchildren,
                        seg@,
                        spec_dg_insert(dg_model(oldchild), spath, i + 1, field_name@, value@),
                    ));
                    assert(self.fields@ == old(self).fields@);
                }
            } else {
                proof {
                    assert(model_get(mchildren, seg@) is None);
                }
                let mut child = DataGroup::new();
                child.insert_at(path, i + 1, field_name, value);
                let owned = seg.clone();
                self.children.push((owned, child));
                proof {
                    lemma_dg_children_model_index(old(self).children@.push(
                        (owned, child),
                    ));
                    assert(self.children@ == old(self).children@.push((owned, child)));
                    lemma_dg_children_model_index(self.children@);
                    assert(dg_children_model(self.children@) =~= model_upsert(
                        mchildren,
                        seg@,
                        spec_dg_insert(empty_model(), spath, i + 1, field_name@, value@),
                    ));
                }
            }
        }
    }
}

} // verus!

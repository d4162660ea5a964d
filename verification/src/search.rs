//! The key-lookup utility: search an already-built record for a field name.
//!
//! The walk visits the top-level groups in order, collecting a fresh group
//! that carries the record's `base` fields plus every value found under the
//! key, then descends into each group's children with that accumulated
//! context as the new base.

use vstd::prelude::*;

use crate::models::{
    assoc_find_idx, dg_children_model, dg_model, lemma_dg_children_model_index,
    lemma_model_find_is, model_get, model_upsert, sv_model, DataGroup, DataGroupModel,
};

verus! {

impl Clone for DataGroup {
    /// A deep copy with the same model.
    fn clone(&self) -> (res: Self)
        ensures
            res@ == self@,
        decreases *self,
    {
        let mut fields: Vec<(String, String)> = Vec::new();
        let nf = self.fields.len();
        let mut i: usize = 0;
        while i < nf
            invariant
                nf == self.fields@.len(),
                0 <= i <= nf,
                fields@.len() == i,
                forall|j: int| 0 <= j < i ==> fields@[j] == self.fields@[j],
            decreases nf - i,
        {
            let k = self.fields[i].0.clone();
            let v = self.fields[i].1.clone();
            fields.push((k, v));
            i += 1;
        }
        let mut children: Vec<(String, DataGroup)> = Vec::new();
        let nc = self.children.len();
        let mut c: usize = 0;
        while c < nc
            invariant
                nc == self.children@.len(),
                0 <= c <= nc,
                children@.len() == c,
                forall|j: int|
                    0 <= j < c ==> children@[j].0 == self.children@[j].0 && dg_model(
                        children@[j].1,
                    ) == dg_model(self.children@[j].1),
            decreases nc - c,
        {
            let name = self.children[c].0.clone();
            proof {
                assert(decreases_to!(*self => self.children));
                assert(decreases_to!(self.children => self.children@));
            }
            let sub = self.children[c].1.clone();
            children.push((name, sub));
            c += 1;
        }
        let res = DataGroup { fields, children };
        proof {
            assert(sv_model(res.fields@) =~= sv_model(self.fields@));
            lemma_dg_children_model_index(res.children@);
            lemma_dg_children_model_index(self.children@);
            assert(dg_children_model(res.children@) =~= dg_children_model(self.children@));
        }
        res
    }
}

/// The context a search starts from: the base fields, no children.
pub open spec fn search_seed(base: Option<DataGroupModel>) -> DataGroupModel {
    match base {
        Some(b) => DataGroupModel { fields: b.fields, children: Seq::empty() },
        None => DataGroupModel { fields: Seq::empty(), children: Seq::empty() },
    }
}

/// The first pass over a group map: every value stored under `key` extends
/// the accumulated context, and each extension is reported.
pub open spec fn search_collect(
    group: Seq<(Seq<char>, DataGroupModel)>,
    key: Seq<char>,
    ng: DataGroupModel,
    idx: int,
) -> (Seq<DataGroupModel>, DataGroupModel)
    decreases group.len() - idx,
{
    if idx < 0 || idx >= group.len() {
        (Seq::empty(), ng)
    } else {
        match model_get(group[idx].1.fields, key) {
            Some(value) => {
                let ng2 = DataGroupModel {
                    fields: model_upsert(ng.fields, key, value),
                    children: ng.children,
                };
                let rest = search_collect(group, key, ng2, idx + 1);
                (seq![ng2] + rest.0, rest.1)
            },
            None => search_collect(group, key, ng, idx + 1),
        }
    }
}

/// What searching a group map yields: the first-pass findings, then the
/// findings of every child map under the accumulated context.
pub open spec fn spec_search(
    group: Seq<(Seq<char>, DataGroupModel)>,
    key: Seq<char>,
    base: Option<DataGroupModel>,
) -> Seq<DataGroupModel>
    decreases group, 1int, 0int,
{
    let pass = search_collect(group, key, search_seed(base), 0);
    pass.0 + search_descend(group, key, pass.1, 0)
}

/// The second pass: each group's children searched in order.
pub open spec fn search_descend(
    group: Seq<(Seq<char>, DataGroupModel)>,
    key: Seq<char>,
    ng: DataGroupModel,
    idx: int,
) -> Seq<DataGroupModel>
    decreases group, 0int, group.len() - idx,
{
    if idx < 0 || idx >= group.len() {
        Seq::empty()
    } else {
        spec_search(group[idx].1.children, key, Some(ng)) + search_descend(
            group,
            key,
            ng,
            idx + 1,
        )
    }
}

/// What a whole-record lookup yields: the search seeded with the record's
/// `base` group when it has one.
pub open spec fn spec_find_key(group: Seq<(Seq<char>, DataGroupModel)>, key: Seq<char>) -> Seq<
    DataGroupModel,
> {
    match model_get(group, "base"@) {
        Some(base) => spec_search(group, key, Some(base)),
        None => spec_search(group, key, None),
    }
}

/// Search one group map for `key` under an optional base context; mirrors
/// [`spec_search`].
#[verifier::loop_isolation(false)]
pub fn search_in_group(
    group: &Vec<(String, DataGroup)>,
    key: &str,
    base_data: Option<&DataGroup>,
) -> (r: Vec<DataGroup>)
    ensures
        r@.map_values(|d: DataGroup| d@) == spec_search(
            dg_children_model(group@),
            key@,
            match base_data {
                Some(b) => Some(b@),
                None => None,
            },
        ),
    decreases group@,
{
    let ghost gm = dg_children_model(group@);
    let ghost basem: Option<DataGroupModel> = match base_data {
        Some(b) => Some(b@),
        None => None,
    };
    proof {
        lemma_dg_children_model_index(group@);
    }

    let mut found: Vec<DataGroup> = Vec::new();
    let mut new_group = DataGroup::new();
    match base_data {
        Some(b) => {
            let nf = b.fields.len();
            let mut i: usize = 0;
            while i < nf
                invariant
                    0 <= i <= nf,
                    nf == b.fields@.len(),
                    new_group.fields@.len() == i,
                    forall|j: int| 0 <= j < i ==> new_group.fields@[j] == b.fields@[j],
                    new_group.children@.len() == 0,
                decreases nf - i,
            {
                let k = b.fields[i].0.clone();
                let v = b.fields[i].1.clone();
                new_group.fields.push((k, v));
                i += 1;
            }
            proof {
                assert(sv_model(new_group.fields@) =~= sv_model(b.fields@));
                assert(dg_children_model(new_group.children@) =~= Seq::<
                    (Seq<char>, DataGroupModel),
                >::empty());
                assert(dg_model(new_group) == search_seed(basem));
            }
        },
        None => {
            proof {
                assert(dg_model(new_group) == search_seed(basem));
            }
        },
    }

    let n = group.len();
    let mut i: usize = 0;
    while i < n
        invariant
            0 <= i <= n,
            ({
                let full = search_collect(gm, key@, search_seed(basem), 0);
                let rem = search_collect(gm, key@, dg_model(new_group), i as int);
                &&& full.0 == found@.map_values(|d: DataGroup| d@) + rem.0
                &&& full.1 == rem.1
            }),
        decreases n - i,
    {
        proof {
            assert(gm[i as int] == (group@[i as int].0@, dg_model(group@[i as int].1)));
        }
        let j = assoc_find_idx(&group[i].1.fields, key);
        proof {
            lemma_model_find_is(sv_model(group@[i as int].1.fields@), key@, j as int);
        }
        if j < group[i].1.fields.len() {
            let value = group[i].1.fields[j].1.clone();
            crate::models::assoc_upsert(&mut new_group.fields, key, value);
            let snapshot = new_group.clone();
            found.push(snapshot);
            proof {
                assert(found@.map_values(|d: DataGroup| d@) =~= found@.drop_last().map_values(
                    |d: DataGroup| d@,
                ).push(dg_model(new_group)));
            }
        }
        i += 1;
    }
    proof {
        assert(search_collect(gm, key@, dg_model(new_group), n as int).0 =~= Seq::<
            DataGroupModel,
        >::empty());
    }

    let ghost ngf = dg_model(new_group);
    let mut c: usize = 0;
    while c < n
        invariant
            0 <= c <= n,
            ngf == dg_model(new_group),
            spec_search(gm, key@, basem) == found@.map_values(|d: DataGroup| d@) + search_descend(
                gm,
                key@,
                ngf,
                c as int,
            ),
        decreases n - c,
    {
        proof {
            assert(gm[c as int] == (group@[c as int].0@, dg_model(group@[c as int].1)));
            assert(decreases_to!(group@ => group@[c as int]));
            assert(decreases_to!(group@[c as int].1.children => group@[c as int].1.children@));
        }
        let mut sub = search_in_group(&group[c].1.children, key, Some(&new_group));
        let ghost found_before = found@;
        let ghost sub_before = sub@;
        found.append(&mut sub);
        proof {
            assert(found@ =~= found_before + sub_before);
            assert(found@.map_values(|d: DataGroup| d@) =~= found_before.map_values(
                |d: DataGroup| d@,
            ) + sub_before.map_values(|d: DataGroup| d@));
        }
        c += 1;
    }
    proof {
        assert(search_descend(gm, key@, ngf, n as int) =~= Seq::<DataGroupModel>::empty());
        assert(found@.map_values(|d: DataGroup| d@) =~= spec_search(gm, key@, basem));
    }
    found
}

/// Search a whole record for `key`; mirrors [`spec_find_key`].
pub fn find_key_in_group(group: &Vec<(String, DataGroup)>, key: &str) -> (r: Vec<DataGroup>)
    ensures
        r@.map_values(|d: DataGroup| d@) == spec_find_key(dg_children_model(group@), key@),
{
    let j = assoc_find_idx(group, "base");
    proof {
        lemma_dg_children_model_index(group@);
        lemma_model_find_is(dg_children_model(group@), "base"@, j as int);
    }
    if j < group.len() {
        let base = &group[j].1;
        search_in_group(group, key, Some(base))
    } else {
        search_in_group(group, key, None)
    }
}

} // verus!

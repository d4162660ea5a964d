//! Resolution of header names to hierarchical group paths.
//!
//! At construction the schema forest is flattened once: exact member names
//! into a static first-insertion-wins map, pattern rules into an ordered
//! list.  Per file, headers missing from the static map try the pattern
//! rules in declaration order, and the optional per-file overlay then
//! replaces the first path segment — never for the two timestamp columns,
//! and never when that segment is the reserved `base` group.

use vstd::prelude::*;
use vstd::std_specs::vec::vec_index_mut;

use crate::models::{
    assoc_find_idx, clone_string_vec, lemma_model_find_is, map_model, model_find, model_get,
    FieldGroup, GroupsConfig,
};
use crate::text::{str_eq, trim_spec, trim_str};

verus! {

/// Whether a pattern is accepted by the pattern engine; a function of the
/// pattern alone.
pub uninterp spec fn regex_valid(pattern: Seq<char>) -> bool;

/// Whether a valid pattern matches a text; a function of pattern and text
/// alone.
pub uninterp spec fn regex_match(pattern: Seq<char>, text: Seq<char>) -> bool;

/// Relies on `regex::Regex::new` and `regex::Regex::is_match`: compiling
/// depends on the pattern alone, and matching on the pattern and the text
/// alone, so both results bear names; an uncompilable pattern yields `None`.
#[verifier::external_body]
fn regex_is_match(pattern: &str, text: &str) -> (r: Option<bool>)
    ensures
        r is Some <==> regex_valid(pattern@),
        r matches Some(b) ==> b == regex_match(pattern@, text@),
{
    match regex::Regex::new(pattern) {
        Ok(re) => Some(re.is_match(text)),
        Err(_) => None,
    }
}

/// A header-to-path map and the ordered pattern rules, at the view level.
pub type MapModel = Seq<(Seq<char>, Seq<Seq<char>>)>;

/// Add `(k, path)` unless a first match for `k` already exists.
pub open spec fn insert_if_absent(m: MapModel, k: Seq<char>, path: Seq<Seq<char>>) -> MapModel {
    if model_find(m, k) < m.len() {
        m
    } else {
        m.push((k, path))
    }
}

/// The static entries of one group's member list, first insertion winning.
pub open spec fn add_fields(fs: Seq<String>, path: Seq<Seq<char>>, m: MapModel) -> MapModel
    decreases fs,
{
    if fs.len() == 0 {
        m
    } else {
        insert_if_absent(add_fields(fs.drop_last(), path, m), fs.last()@, path)
    }
}

/// Flatten one group: member fields first, then its pattern rule, then the
/// subgroups in order, each under the extended path.
pub open spec fn collect_group(g: FieldGroup, path: Seq<Seq<char>>, sm: MapModel, rr: MapModel) -> (
    MapModel,
    MapModel,
)
    decreases g,
    via collect_group_decreases
{
    let sm1 = add_fields(g.fields@, path, sm);
    let rr1 = match g.field_pattern {
        Some(p) => rr.push((p@, path)),
        None => rr,
    };
    collect_children(g.children@, path, sm1, rr1)
}

#[via_fn]
proof fn collect_group_decreases(g: FieldGroup, path: Seq<Seq<char>>, sm: MapModel, rr: MapModel) {
    assert(decreases_to!(g => g.children));
    assert(decreases_to!(g.children => g.children@));
}

/// Flatten a subgroup vector in order.
pub open spec fn collect_children(
    cs: Seq<(String, FieldGroup)>,
    path: Seq<Seq<char>>,
    sm: MapModel,
    rr: MapModel,
) -> (MapModel, MapModel)
    decreases cs,
{
    if cs.len() == 0 {
        (sm, rr)
    } else {
        let pre = collect_children(cs.drop_last(), path, sm, rr);
        collect_group(cs.last().1, path.push(cs.last().0@), pre.0, pre.1)
    }
}

/// Flatten the whole forest in declaration order, each top-level group
/// under the path of its own name.
pub open spec fn collect_config(groups: Seq<(String, FieldGroup)>, sm: MapModel, rr: MapModel) -> (
    MapModel,
    MapModel,
)
    decreases groups,
{
    if groups.len() == 0 {
        (sm, rr)
    } else {
        let pre = collect_config(groups.drop_last(), sm, rr);
        collect_group(groups.last().1, seq![groups.last().0@], pre.0, pre.1)
    }
}

/// The path of the first rule whose valid pattern matches `h`, if any.
pub open spec fn resolve_rules(rules: MapModel, h: Seq<char>) -> Option<Seq<Seq<char>>>
    decreases rules,
{
    if rules.len() == 0 {
        None
    } else if regex_valid(rules[0].0) && regex_match(rules[0].0, h) {
        Some(rules[0].1)
    } else {
        resolve_rules(rules.drop_first(), h)
    }
}

/// One header's contribution to the effective map: keep an existing entry,
/// else take the first matching rule's path, else nothing.
pub open spec fn add_header(m: MapModel, rules: MapModel, h: Seq<char>) -> MapModel {
    if model_find(m, h) < m.len() {
        m
    } else {
        match resolve_rules(rules, h) {
            Some(path) => m.push((h, path)),
            None => m,
        }
    }
}

/// The schema-only map for `headers[i..]`, folded left to right onto `m`.
pub open spec fn spec_build_mappings(m: MapModel, rules: MapModel, headers: Seq<Seq<char>>, i: int) -> MapModel
    decreases headers.len() - i,
{
    if i < 0 || i >= headers.len() {
        m
    } else {
        spec_build_mappings(add_header(m, rules, headers[i]), rules, headers, i + 1)
    }
}

/// One header's overlay application: replace only the first path segment,
/// never for the timestamp columns and never over the reserved `base`
/// group; a header without a prior mapping gets a one-segment path.
pub open spec fn apply_overlay_step(
    m: MapModel,
    ov: Seq<(Seq<char>, Seq<char>)>,
    h: Seq<char>,
) -> MapModel {
    if h == "Date"@ || h == "Time"@ {
        m
    } else {
        match model_get(ov, h) {
            None => m,
            Some(parent0) => {
                let parent = trim_spec(parent0);
                if parent.len() == 0 {
                    m
                } else {
                    let fi = model_find(m, h);
                    if fi < m.len() {
                        let path = m[fi].1;
                        if path.len() > 0 {
                            if path[0] != "base"@ {
                                m.update(fi, (m[fi].0, path.update(0, parent)))
                            } else {
                                m
                            }
                        } else {
                            m.update(fi, (m[fi].0, seq![parent]))
                        }
                    } else {
                        m.push((h, seq![parent]))
                    }
                }
            },
        }
    }
}

/// The effective map: the overlay applied for `headers[i..]` in order.
pub open spec fn apply_overlay(
    m: MapModel,
    ov: Seq<(Seq<char>, Seq<char>)>,
    headers: Seq<Seq<char>>,
    i: int,
) -> MapModel
    decreases headers.len() - i,
{
    if i < 0 || i >= headers.len() {
        m
    } else {
        apply_overlay(apply_overlay_step(m, ov, headers[i]), ov, headers, i + 1)
    }
}

/// The schema flattened for lookup: the forest itself, the static map, and
/// the pattern rules in declaration order.
pub struct DataProcessor {
    /// The schema snapshot this processor was built from.
    pub config: GroupsConfig,
    /// Exact header names to paths, first insertion winning.
    pub static_field_map: Vec<(String, Vec<String>)>,
    /// Pattern rules in schema declaration order.
    pub regex_rules: Vec<(String, Vec<String>)>,
}

impl DataProcessor {
    /// Flatten `config` once; mirrors [`collect_config`] on the empty maps.
    pub fn new(config: GroupsConfig) -> (r: Self)
        ensures
            (map_model(r.static_field_map@), map_model(r.regex_rules@)) == collect_config(
                config.groups@,
                Seq::empty(),
                Seq::empty(),
            ),
            r.config == config,
    {
        let mut static_field_map: Vec<(String, Vec<String>)> = Vec::new();
        let mut regex_rules: Vec<(String, Vec<String>)> = Vec::new();
        proof {
            assert(map_model(static_field_map@) =~= Seq::<(Seq<char>, Seq<Seq<char>>)>::empty());
            assert(map_model(regex_rules@) =~= Seq::<(Seq<char>, Seq<Seq<char>>)>::empty());
        }
        let n = config.groups.len();
        let mut i: usize = 0;
        while i < n
            invariant
                n == config.groups@.len(),
                0 <= i <= n,
                (map_model(static_field_map@), map_model(regex_rules@)) == collect_config(
                    config.groups@.subrange(0, i as int),
                    Seq::empty(),
                    Seq::empty(),
                ),
            decreases n - i,
        {
            let group_name = &config.groups[i].0;
            let mut path: Vec<String> = Vec::new();
            path.push(group_name.clone());
            proof {
                assert(path.deep_view() =~= seq![config.groups@[i as int].0@]);
                assert(config.groups@.subrange(0, i as int + 1).drop_last() =~= config.groups@.subrange(
                    0,
                    i as int,
                ));
                assert(config.groups@.subrange(0, i as int + 1).last() == config.groups@[i as int]);
            }
            Self::collect_field_mappings(
                &config.groups[i].1,
                &mut path,
                &mut static_field_map,
                &mut regex_rules,
            );
            i += 1;
        }
        proof {
            assert(config.groups@.subrange(0, n as int) =~= config.groups@);
        }
        DataProcessor { config, static_field_map, regex_rules }
    }

    /// Record one group's members, pattern and subgroups; mirrors
    /// [`collect_group`], and leaves `path` as it found it.
    fn collect_field_mappings(
        group: &FieldGroup,
        path: &mut Vec<String>,
        static_map: &mut Vec<(String, Vec<String>)>,
        regex_rules: &mut Vec<(String, Vec<String>)>,
    )
        ensures
            (map_model(final(static_map)@), map_model(final(regex_rules)@)) == collect_group(
                *group,
                old(path).deep_view(),
                map_model(old(static_map)@),
                map_model(old(regex_rules)@),
            ),
            final(path)@ == old(path)@,
        decreases *group,
    {
        let ghost pv = path.deep_view();
        let nf = group.fields.len();
        let mut i: usize = 0;
        while i < nf
            invariant
                nf == group.fields@.len(),
                0 <= i <= nf,
                path@ == old(path)@,
                path.deep_view() == pv,
                map_model(static_map@) == add_fields(
                    group.fields@.subrange(0, i as int),
                    pv,
                    map_model(old(static_map)@),
                ),
                regex_rules@ == old(regex_rules)@,
            decreases nf - i,
        {
            proof {
                assert(group.fields@.subrange(0, i as int + 1).drop_last() =~= group.fields@.subrange(
                    0,
                    i as int,
                ));
                assert(group.fields@.subrange(0, i as int + 1).last() == group.fields@[i as int]);
            }
            let field = &group.fields[i];
            let j = assoc_find_idx(static_map, field.as_str());
            proof {
                lemma_model_find_is(map_model(static_map@), field@, j as int);
            }
            if j == static_map.len() {
                let key = field.clone();
                let value = clone_string_vec(path);
                static_map.push((key, value));
                proof {
                    assert(map_model(static_map@) =~= add_fields(
                        group.fields@.subrange(0, i as int),
                        pv,
                        map_model(old(static_map)@),
                    ).push((field@, pv)));
                }
            }
            i += 1;
        }
        proof {
            assert(group.fields@.subrange(0, nf as int) =~= group.fields@);
        }

        match &group.field_pattern {
            Some(pattern) => {
                let key = pattern.clone();
                let value = clone_string_vec(path);
                regex_rules.push((key, value));
                proof {
                    assert(map_model(regex_rules@) =~= map_model(old(regex_rules)@).push(
                        (pattern@, pv),
                    ));
                }
            },
            None => {},
        }

        let ghost sm1 = map_model(static_map@);
        let ghost rr1 = map_model(regex_rules@);
        let nc = group.children.len();
        let mut c: usize = 0;
        while c < nc
            invariant
                nc == group.children@.len(),
                0 <= c <= nc,
                path@ == old(path)@,
                path.deep_view() == pv,
                (map_model(static_map@), map_model(regex_rules@)) == collect_children(
                    group.children@.subrange(0, c as int),
                    pv,
                    sm1,
                    rr1,
                ),
            decreases nc - c,
        {
            proof {
                assert(group.children@.subrange(0, c as int + 1).drop_last()
                    =~= group.children@.subrange(0, c as int));
                assert(group.children@.subrange(0, c as int + 1).last()
                    == group.children@[c as int]);
            }
            let sub_name = group.children[c].0.clone();
            let ghost path_before = path@;
            path.push(sub_name);
            proof {
                assert(path.deep_view() =~= pv.push(group.children@[c as int].0@));
            }
            Self::collect_field_mappings(&group.children[c].1, path, static_map, regex_rules);
            path.pop();
            proof {
                assert(path@ =~= path_before);
            }
            c += 1;
        }
        proof {
            assert(group.children@.subrange(0, nc as int) =~= group.children@);
        }
    }

    /// The schema-only header map for this file; mirrors
    /// [`spec_build_mappings`] over the flattened schema.
    pub fn build_field_mappings(&self, headers: &Vec<String>) -> (r: Vec<(String, Vec<String>)>)
        ensures
            map_model(r@) == spec_build_mappings(
                map_model(self.static_field_map@),
                map_model(self.regex_rules@),
                headers.deep_view(),
                0,
            ),
    {
        let ghost rules = map_model(self.regex_rules@);
        let ghost hv = headers.deep_view();
        let mut mappings = clone_mapping_vec(&self.static_field_map);
        let n = headers.len();
        let mut i: usize = 0;
        while i < n
            invariant
                n == headers@.len(),
                hv == headers.deep_view(),
                hv.len() == n,
                forall|j: int| 0 <= j < n ==> hv[j] == headers@[j]@,
                0 <= i <= n,
                rules == map_model(self.regex_rules@),
                spec_build_mappings(map_model(self.static_field_map@), rules, hv, 0)
                    == spec_build_mappings(map_model(mappings@), rules, hv, i as int),
            decreases n - i,
        {
            let header = &headers[i];
            let j = assoc_find_idx(&mappings, header.as_str());
            proof {
                lemma_model_find_is(map_model(mappings@), header@, j as int);
            }
            if j == mappings.len() {
                let nr = self.regex_rules.len();
                proof {
                    assert(rules.subrange(0, rules.len() as int) =~= rules);
                }
                let mut k: usize = 0;
                let mut matched: bool = false;
                while k < nr && !matched
                    invariant
                        nr == self.regex_rules@.len(),
                        0 <= k <= nr,
                        rules == map_model(self.regex_rules@),
                        rules.len() == nr,
                        forall|t: int|
                            0 <= t < rules.len() ==> rules[t] == (
                                self.regex_rules@[t].0@,
                                self.regex_rules@[t].1.deep_view(),
                            ),
                        !matched ==> resolve_rules(rules, header@) == resolve_rules(
                            rules.subrange(k as int, rules.len() as int),
                            header@,
                        ),
                        matched ==> k < nr && resolve_rules(rules, header@) == Some(
                            rules[k as int].1,
                        ),
                    decreases nr - k, (if matched { 0int } else { 1int }),
                {
                    let rule_pattern = &self.regex_rules[k].0;
                    match regex_is_match(rule_pattern.as_str(), header.as_str()) {
                        Some(true) => {
                            matched = true;
                            proof {
                                let tail = rules.subrange(k as int, rules.len() as int);
                                assert(tail[0] == rules[k as int]);
                                assert(regex_valid(tail[0].0) && regex_match(tail[0].0, header@));
                            }
                        },
                        _ => {
                            proof {
                                let tail = rules.subrange(k as int, rules.len() as int);
                                assert(tail[0] == rules[k as int]);
                                assert(!(regex_valid(tail[0].0) && regex_match(
                                    tail[0].0,
                                    header@,
                                )));
                                assert(tail.drop_first() =~= rules.subrange(
                                    k as int + 1,
                                    rules.len() as int,
                                ));
                            }
                            k += 1;
                        },
                    }
                }
                if matched {
                    let ghost mbefore = map_model(mappings@);
                    let key = header.clone();
                    let value = clone_string_vec(&self.regex_rules[k].1);
                    mappings.push((key, value));
                    proof {
                        assert(map_model(mappings@) =~= mbefore.push((header@, rules[k as int].1)));
                        assert(map_model(mappings@) == add_header(mbefore, rules, header@));
                    }
                } else {
                    proof {
                        assert(resolve_rules(rules.subrange(nr as int, nr as int), header@)
                            is None) by {
                            assert(rules.subrange(nr as int, nr as int).len() == 0);
                        }
                    }
                }
            }
            i += 1;
        }
        proof {
            assert(spec_build_mappings(map_model(mappings@), rules, hv, n as int) == map_model(
                mappings@,
            ));
        }
        mappings
    }

    /// The effective map: the schema-only map with the overlay applied;
    /// mirrors [`apply_overlay`].
    pub fn build_field_mappings_with_overlay(
        &self,
        headers: &Vec<String>,
        overlay: Option<&Vec<(String, String)>>,
    ) -> (r: Vec<(String, Vec<String>)>)
        ensures
            map_model(r@) == match overlay {
                None => spec_build_mappings(
                    map_model(self.static_field_map@),
                    map_model(self.regex_rules@),
                    headers.deep_view(),
                    0,
                ),
                Some(ov) => apply_overlay(
                    spec_build_mappings(
                        map_model(self.static_field_map@),
                        map_model(self.regex_rules@),
                        headers.deep_view(),
                        0,
                    ),
                    crate::models::sv_model(ov@),
                    headers.deep_view(),
                    0,
                ),
            },
    {
        let mut mappings = self.build_field_mappings(headers);
        let overlay_vec = match overlay {
            Some(ov) => ov,
            None => {
                return mappings;
            },
        };
        let ghost ov = crate::models::sv_model(overlay_vec@);
        let ghost hv = headers.deep_view();
        let ghost m0 = map_model(mappings@);
        let n = headers.len();
        let mut i: usize = 0;
        while i < n
            invariant
                n == headers@.len(),
                hv == headers.deep_view(),
                hv.len() == n,
                forall|j: int| 0 <= j < n ==> hv[j] == headers@[j]@,
                ov == crate::models::sv_model(overlay_vec@),
                0 <= i <= n,
                apply_overlay(m0, ov, hv, 0) == apply_overlay(map_model(mappings@), ov, hv, i as int),
            decreases n - i,
        {
            let header = &headers[i];
            let is_ts = str_eq(header.as_str(), "Date") || str_eq(header.as_str(), "Time");
            if !is_ts {
                let oj = assoc_find_idx(overlay_vec, header.as_str());
                proof {
                    lemma_model_find_is(ov, header@, oj as int);
                }
                if oj < overlay_vec.len() {
                    let parent = trim_str(overlay_vec[oj].1.as_str());
                    if parent.as_str().unicode_len() > 0 {
                        let fi = assoc_find_idx(&mappings, header.as_str());
                        proof {
                            lemma_model_find_is(map_model(mappings@), header@, fi as int);
                        }
                        if fi < mappings.len() {
                            let ghost mbefore = map_model(mappings@);
                            let e = vec_index_mut(&mut mappings, fi);
                            if e.1.len() > 0 {
                                if !str_eq(e.1[0].as_str(), "base") {
                                    let slot = vec_index_mut(&mut e.1, 0);
                                    *slot = parent;
                                    proof {
                                        assert(map_model(mappings@) =~~= apply_overlay_step(
                                            mbefore,
                                            ov,
                                            header@,
                                        ));
                                    }
                                } else {
                                    proof {
                                        assert(map_model(mappings@) =~~= apply_overlay_step(
                                            mbefore,
                                            ov,
                                            header@,
                                        ));
                                    }
                                }
                            } else {
                                let mut single: Vec<String> = Vec::new();
                                single.push(parent);
                                e.1 = single;
                                proof {
                                    assert(map_model(mappings@) =~~= apply_overlay_step(
                                        mbefore,
                                        ov,
                                        header@,
                                    ));
                                }
                            }
                        } else {
                            let ghost mbefore = map_model(mappings@);
                            let key = header.clone();
                            let mut single: Vec<String> = Vec::new();
                            single.push(parent);
                            mappings.push((key, single));
                            proof {
                                assert(map_model(mappings@) =~~= apply_overlay_step(
                                    mbefore,
                                    ov,
                                    header@,
                                ));
                            }
                        }
                    }
                }
            }
            i += 1;
        }
        proof {
            assert(apply_overlay(map_model(mappings@), ov, hv, n as int) == map_model(mappings@));
        }
        mappings
    }
}

/// A by-entry copy of a header map, views preserved.
fn clone_mapping_vec(v: &Vec<(String, Vec<String>)>) -> (r: Vec<(String, Vec<String>)>)
    ensures
        map_model(r@) == map_model(v@),
{
    let mut r: Vec<(String, Vec<String>)> = Vec::new();
    let n = v.len();
    let mut i: usize = 0;
    while i < n
        invariant
            n == v@.len(),
            0 <= i <= n,
            r@.len() == i,
            forall|j: int|
                0 <= j < i ==> (r@[j].0@ == v@[j].0@ && r@[j].1.deep_view() == v@[j].1.deep_view()),
        decreases n - i,
    {
        let key = v[i].0.clone();
        let value = clone_string_vec(&v[i].1);
        r.push((key, value));
        i += 1;
    }
    proof {
        assert(map_model(r@) =~= map_model(v@));
    }
    r
}

} // verus!

//! Laws of the pipeline: properties that relate several functions, stated
//! over the same models their contracts use and proved once.

use vstd::prelude::*;

use crate::engine::{
    body_content, csv_rows, spec_build_record, spec_insert_field, spec_process_lines,
    spec_process_rows,
};
use crate::errors::ProcessError;
use crate::models::{
    lemma_model_find, lemma_model_find_is, model_find, model_get, model_upsert, DataGroupModel,
};
use crate::normalize::{
    best_from, cand_score, spec_finish, spec_infer, spec_normalize, spec_trim_row, SCORE_CAP,
};
use crate::overlay::pad_to;
use crate::resolver::{apply_overlay, apply_overlay_step, MapModel};
use crate::text::{has_prefix, norm_spec};
use crate::validate::{header_like_idxs, nonempty_idxs, spec_analyze};

verus! {

// ------------------------------------------------------------------
// Structural shapes
// ------------------------------------------------------------------

/// A file whose only header-like line is the first non-empty line, and
/// whose last non-empty line does not open with two separators, is accepted
/// with no tail metadata.
pub proof fn lemma_single_header_accepted(lines: Seq<Seq<char>>)
    requires
        nonempty_idxs(lines).len() > 0,
        header_like_idxs(lines).len() == 1,
        header_like_idxs(lines)[0] == nonempty_idxs(lines)[0],
        !has_prefix(norm_spec(lines[nonempty_idxs(lines).last()]), ",,"@),
    ensures
        spec_analyze(lines) == Ok::<(Seq<char>, Option<(int, int, Seq<char>)>), ProcessError>(
            (lines[nonempty_idxs(lines)[0]], None),
        ),
{
}

/// A file with exactly two header-like lines — the second exactly at the
/// second-to-last non-empty position — whose last line opens with two
/// separators, is accepted with tail metadata carrying both indices and
/// the parent-title text.
pub proof fn lemma_tail_shape_accepted(lines: Seq<Seq<char>>)
    requires
        nonempty_idxs(lines).len() >= 2,
        header_like_idxs(lines).len() == 2,
        header_like_idxs(lines)[0] == nonempty_idxs(lines)[0],
        header_like_idxs(lines)[1] == nonempty_idxs(lines)[nonempty_idxs(lines).len() - 2],
        has_prefix(norm_spec(lines[nonempty_idxs(lines).last()]), ",,"@),
    ensures
        spec_analyze(lines) == Ok::<(Seq<char>, Option<(int, int, Seq<char>)>), ProcessError>(
            (
                lines[nonempty_idxs(lines)[0]],
                Some(
                    (
                        header_like_idxs(lines)[1],
                        nonempty_idxs(lines).last(),
                        lines[nonempty_idxs(lines).last()],
                    ),
                ),
            ),
        ),
{
}

/// Three or more header-like lines are rejected as repeated headers.
pub proof fn lemma_too_many_headers_rejected(lines: Seq<Seq<char>>)
    requires
        nonempty_idxs(lines).len() > 0,
        header_like_idxs(lines).len() >= 3,
        header_like_idxs(lines)[0] == nonempty_idxs(lines)[0],
    ensures
        spec_analyze(lines) == Err::<(Seq<char>, Option<(int, int, Seq<char>)>), ProcessError>(
            ProcessError::TooManyHeaderLines,
        ),
{
}

/// A second header-like line anywhere but the second-to-last non-empty
/// position is rejected as a misplaced repeat.
pub proof fn lemma_misplaced_repeat_rejected(lines: Seq<Seq<char>>)
    requires
        nonempty_idxs(lines).len() >= 2,
        header_like_idxs(lines).len() == 2,
        header_like_idxs(lines)[0] == nonempty_idxs(lines)[0],
        header_like_idxs(lines)[1] != nonempty_idxs(lines)[nonempty_idxs(lines).len() - 2],
    ensures
        spec_analyze(lines) == Err::<(Seq<char>, Option<(int, int, Seq<char>)>), ProcessError>(
            ProcessError::RepeatedHeaderMisplaced,
        ),
{
}

// ------------------------------------------------------------------
// One record per data row
// ------------------------------------------------------------------

/// A successful row fold emits exactly one record per remaining row.
pub proof fn lemma_process_rows_count(
    mappings: MapModel,
    headers: Seq<Seq<char>>,
    rows: Seq<Seq<Seq<char>>>,
    i: int,
    acc: Seq<Seq<(Seq<char>, DataGroupModel)>>,
    st: (Option<int>, Option<Seq<Seq<char>>>),
    out: Seq<Seq<(Seq<char>, DataGroupModel)>>,
)
    requires
        0 <= i <= rows.len(),
        spec_process_rows(mappings, headers, rows, i, acc, st) == Ok::<
            Seq<Seq<(Seq<char>, DataGroupModel)>>,
            ProcessError,
        >(out),
    ensures
        out.len() == acc.len() + rows.len() - i,
    decreases rows.len() - i,
{
    if i < rows.len() {
        let step = spec_normalize(rows[i], headers.len() as int, st);
        match step.0 {
            Err(_e) => {},
            Ok(processed) => {
                let rec = spec_build_record(mappings, headers, processed, 0, Seq::empty());
                lemma_process_rows_count(
                    mappings,
                    headers,
                    rows,
                    i + 1,
                    acc.push(rec),
                    step.1,
                    out,
                );
            },
        }
    }
}

/// The rows the CSV reader yields for a structurally accepted file.
pub open spec fn parsed_rows(lines: Seq<Seq<char>>) -> Option<Seq<Seq<Seq<char>>>> {
    match spec_analyze(lines) {
        Ok((_h, tail)) => {
            let skips = match tail {
                Some((r, pl, _)) => (r, pl),
                None => (-1int, -1int),
            };
            csv_rows(body_content(lines, skips.0, skips.1))
        },
        Err(_) => None,
    }
}

/// A file that ingests successfully yields exactly one record per data row
/// of its reconstructed body.
pub proof fn lemma_one_record_per_data_row(
    p: crate::resolver::DataProcessor,
    lines: Seq<Seq<char>>,
    out: Seq<Seq<(Seq<char>, DataGroupModel)>>,
)
    requires
        spec_process_lines(p, lines) == Ok::<
            Seq<Seq<(Seq<char>, DataGroupModel)>>,
            ProcessError,
        >(out),
        parsed_rows(lines) matches Some(rows) && rows.len() > 0,
    ensures
        out.len() == parsed_rows(lines)->Some_0.len() - 1,
{
    let rows = parsed_rows(lines)->Some_0;
    match spec_analyze(lines) {
        Ok((_h, tail)) => {
            let headers = crate::overlay::pop_trailing_empty(rows[0]);
            let mappings = crate::engine::spec_effective_mappings(p, headers, tail);
            lemma_process_rows_count(
                mappings,
                headers,
                rows,
                1,
                Seq::empty(),
                (None, None),
                out,
            );
        },
        Err(_) => {},
    }
}

// ------------------------------------------------------------------
// Drift inference
// ------------------------------------------------------------------

/// The inferred drop index never leaves the row.
pub proof fn lemma_spec_infer_range(prev: Seq<Seq<char>>, curr: Seq<Seq<char>>)
    requires
        curr.len() == prev.len() + 1,
    ensures
        0 <= spec_infer(prev, curr) <= prev.len(),
{
    lemma_best_from_range(prev, curr, 0, prev.len() as int, SCORE_CAP as int + 1);
}

/// Helper: [`best_from`] only ever returns a candidate or its seed.
proof fn lemma_best_from_range(
    prev: Seq<Seq<char>>,
    curr: Seq<Seq<char>>,
    k: int,
    best_idx: int,
    best_score: int,
)
    requires
        0 <= k,
        0 <= best_idx <= prev.len(),
        curr.len() == prev.len() + 1,
    ensures
        0 <= best_from(prev, curr, k, best_idx, best_score) <= prev.len(),
    decreases curr.len() - k,
{
    if 0 <= k < curr.len() {
        let sc = cand_score(prev, curr, k);
        if sc < best_score {
            lemma_best_from_range(prev, curr, k + 1, k, sc);
        } else {
            lemma_best_from_range(prev, curr, k + 1, best_idx, best_score);
        }
    }
}

/// An over-length row with no cached index infers the drop position from
/// the previous row — the offset of least summed numeric deviation — drops
/// that column, and caches the offset.
pub proof fn lemma_drift_inferred_once(row: Seq<Seq<char>>, expected: int, prev: Seq<Seq<char>>)
    requires
        expected >= 0,
        prev.len() == expected,
        spec_trim_row(row, expected).len() == expected + 1,
    ensures
        ({
            let trimmed = spec_trim_row(row, expected);
            let k = spec_infer(prev, trimmed);
            &&& 0 <= k <= expected
            &&& spec_normalize(row, expected, (None, Some(prev))) == spec_finish(
                trimmed.remove(k),
                Some(k),
            )
        }),
{
    let trimmed = spec_trim_row(row, expected);
    lemma_spec_infer_range(prev, trimmed);
}

/// An over-length row with a cached index drops that column again without
/// re-inferring.
pub proof fn lemma_drift_index_reused(
    row: Seq<Seq<char>>,
    expected: int,
    d: int,
    prevopt: Option<Seq<Seq<char>>>,
)
    requires
        0 <= d <= expected,
        spec_trim_row(row, expected).len() == expected + 1,
    ensures
        spec_normalize(row, expected, (Some(d), prevopt)) == spec_finish(
            spec_trim_row(row, expected).remove(d),
            Some(d),
        ),
{
}

// ------------------------------------------------------------------
// Frame lemmas for association vectors
// ------------------------------------------------------------------

/// Two vectors with the same keys have the same first match.
proof fn lemma_model_find_same_keys<X>(
    cs: Seq<(Seq<char>, X)>,
    cs2: Seq<(Seq<char>, X)>,
    k: Seq<char>,
)
    requires
        cs.len() == cs2.len(),
        forall|j: int| 0 <= j < cs.len() ==> cs[j].0 == cs2[j].0,
    ensures
        model_find(cs2, k) == model_find(cs, k),
{
    lemma_model_find(cs, k);
    let f = model_find(cs, k);
    lemma_model_find_is(cs2, k, f);
}

/// Writing under one key never changes what another key reads.
pub proof fn lemma_upsert_preserves_other<X>(
    cs: Seq<(Seq<char>, X)>,
    k: Seq<char>,
    v: X,
    k2: Seq<char>,
)
    requires
        k2 != k,
    ensures
        model_get(model_upsert(cs, k, v), k2) == model_get(cs, k2),
{
    lemma_model_find(cs, k);
    let i = model_find(cs, k);
    lemma_model_find(cs, k2);
    let f2 = model_find(cs, k2);
    if i < cs.len() {
        let cs2 = cs.update(i, (cs[i].0, v));
        lemma_model_find_same_keys(cs, cs2, k2);
        if f2 < cs.len() {
            assert(cs[i].0 == k);
            assert(f2 != i);
        }
    } else {
        let cs2 = cs.push((k, v));
        if f2 < cs.len() {
            lemma_model_find_is(cs2, k2, f2);
        } else {
            lemma_model_find_is(cs2, k2, cs2.len() as int);
        }
    }
}

/// Writing under a key makes exactly that value readable.
pub proof fn lemma_upsert_get_same<X>(cs: Seq<(Seq<char>, X)>, k: Seq<char>, v: X)
    ensures
        model_get(model_upsert(cs, k, v), k) == Some(v),
{
    lemma_model_find(cs, k);
    let i = model_find(cs, k);
    if i < cs.len() {
        let cs2 = cs.update(i, (cs[i].0, v));
        lemma_model_find_same_keys(cs, cs2, k);
    } else {
        let cs2 = cs.push((k, v));
        lemma_model_find_is(cs2, k, i);
    }
}

// ------------------------------------------------------------------
// Overlay application
// ------------------------------------------------------------------

/// Applying the overlay for one header never changes another header's path.
proof fn lemma_overlay_step_frame(
    m: MapModel,
    ov: Seq<(Seq<char>, Seq<char>)>,
    h: Seq<char>,
    h2: Seq<char>,
)
    requires
        h2 != h,
    ensures
        model_get(apply_overlay_step(m, ov, h), h2) == model_get(m, h2),
{
    if h == "Date"@ || h == "Time"@ {
    } else {
        match model_get(ov, h) {
            None => {},
            Some(parent0) => {
                let parent = crate::text::trim_spec(parent0);
                if parent.len() == 0 {
                } else {
                    lemma_model_find(m, h);
                    let fi = model_find(m, h);
                    lemma_model_find(m, h2);
                    let f2 = model_find(m, h2);
                    if fi < m.len() {
                        let path = m[fi].1;
                        if path.len() > 0 && path[0] != "base"@ {
                            let m2 = m.update(fi, (m[fi].0, path.update(0, parent)));
                            lemma_model_find_same_keys(m, m2, h2);
                            if f2 < m.len() {
                                assert(f2 != fi);
                            }
                        } else if path.len() == 0 {
                            let m2 = m.update(fi, (m[fi].0, seq![parent]));
                            lemma_model_find_same_keys(m, m2, h2);
                            if f2 < m.len() {
                                assert(f2 != fi);
                            }
                        }
                    } else {
                        let m2 = m.push((h, seq![parent]));
                        if f2 < m.len() {
                            lemma_model_find_is(m2, h2, f2);
                        } else {
                            lemma_model_find_is(m2, h2, m2.len() as int);
                        }
                    }
                }
            },
        }
    }
}

/// A run of overlay steps over headers other than `h` leaves `h`'s path
/// alone.
proof fn lemma_overlay_run_frame(
    m: MapModel,
    ov: Seq<(Seq<char>, Seq<char>)>,
    headers: Seq<Seq<char>>,
    i: int,
    h: Seq<char>,
)
    requires
        0 <= i,
        forall|t: int| i <= t < headers.len() ==> headers[t] != h,
    ensures
        model_get(apply_overlay(m, ov, headers, i), h) == model_get(m, h),
    decreases headers.len() - i,
{
    if i < headers.len() {
        lemma_overlay_step_frame(m, ov, headers[i], h);
        lemma_overlay_run_frame(apply_overlay_step(m, ov, headers[i]), ov, headers, i + 1, h);
    }
}

/// What one header's own overlay step writes for it.
proof fn lemma_overlay_step_writes(m: MapModel, ov: Seq<(Seq<char>, Seq<char>)>, h: Seq<char>)
    requires
        h != "Date"@,
        h != "Time"@,
        model_get(ov, h) is Some,
        crate::text::trim_spec(model_get(ov, h)->Some_0).len() > 0,
    ensures
        ({
            let parent = crate::text::trim_spec(model_get(ov, h)->Some_0);
            let stepped = apply_overlay_step(m, ov, h);
            match model_get(m, h) {
                Some(path) => {
                    if path.len() > 0 && path[0] != "base"@ {
                        model_get(stepped, h) == Some(path.update(0, parent))
                    } else if path.len() > 0 {
                        model_get(stepped, h) == Some(path)
                    } else {
                        model_get(stepped, h) == Some(seq![parent])
                    }
                },
                None => model_get(stepped, h) == Some(seq![parent]),
            }
        }),
{
    let parent = crate::text::trim_spec(model_get(ov, h)->Some_0);
    lemma_model_find(m, h);
    let fi = model_find(m, h);
    if fi < m.len() {
        let path = m[fi].1;
        if path.len() > 0 && path[0] != "base"@ {
            let m2 = m.update(fi, (m[fi].0, path.update(0, parent)));
            lemma_model_find_same_keys(m, m2, h);
        } else if path.len() == 0 {
            let m2 = m.update(fi, (m[fi].0, seq![parent]));
            lemma_model_find_same_keys(m, m2, h);
        }
    } else {
        let m2 = m.push((h, seq![parent]));
        lemma_model_find_is(m2, h, fi);
    }
}

/// Every non-timestamp header with a non-blank parent-title entry ends up
/// under that parent group: the override replaces exactly the first path
/// segment, creates a one-segment path for unmapped headers, and leaves
/// the reserved `base` group alone.
pub proof fn lemma_overlay_applied(
    m0: MapModel,
    ov: Seq<(Seq<char>, Seq<char>)>,
    headers: Seq<Seq<char>>,
    j: int,
)
    requires
        0 <= j < headers.len(),
        forall|a: int, b: int|
            0 <= a < b < headers.len() ==> headers[a] != headers[b],
        headers[j] != "Date"@,
        headers[j] != "Time"@,
        model_get(ov, headers[j]) is Some,
        crate::text::trim_spec(model_get(ov, headers[j])->Some_0).len() > 0,
    ensures
        ({
            let h = headers[j];
            let parent = crate::text::trim_spec(model_get(ov, h)->Some_0);
            let eff = apply_overlay(m0, ov, headers, 0);
            match model_get(m0, h) {
                Some(path) => {
                    if path.len() > 0 && path[0] != "base"@ {
                        model_get(eff, h) == Some(path.update(0, parent))
                    } else if path.len() > 0 {
                        model_get(eff, h) == Some(path)
                    } else {
                        model_get(eff, h) == Some(seq![parent])
                    }
                },
                None => model_get(eff, h) == Some(seq![parent]),
            }
        }),
{
    lemma_overlay_walk(m0, ov, headers, 0, j);
}

/// The walk behind [`lemma_overlay_applied`]: frames before `j`, the write
/// at `j`, frames after.
proof fn lemma_overlay_walk(
    m: MapModel,
    ov: Seq<(Seq<char>, Seq<char>)>,
    headers: Seq<Seq<char>>,
    i: int,
    j: int,
)
    requires
        0 <= i <= j < headers.len(),
        forall|a: int, b: int|
            0 <= a < b < headers.len() ==> headers[a] != headers[b],
        headers[j] != "Date"@,
        headers[j] != "Time"@,
        model_get(ov, headers[j]) is Some,
        crate::text::trim_spec(model_get(ov, headers[j])->Some_0).len() > 0,
    ensures
        ({
            let h = headers[j];
            let parent = crate::text::trim_spec(model_get(ov, h)->Some_0);
            let eff = apply_overlay(m, ov, headers, i);
            match model_get(m, h) {
                Some(path) => {
                    if path.len() > 0 && path[0] != "base"@ {
                        model_get(eff, h) == Some(path.update(0, parent))
                    } else if path.len() > 0 {
                        model_get(eff, h) == Some(path)
                    } else {
                        model_get(eff, h) == Some(seq![parent])
                    }
                },
                None => model_get(eff, h) == Some(seq![parent]),
            }
        }),
    decreases j - i,
{
    let h = headers[j];
    if i < j {
        lemma_overlay_step_frame(m, ov, headers[i], h);
        lemma_overlay_walk(apply_overlay_step(m, ov, headers[i]), ov, headers, i + 1, j);
    } else {
        lemma_overlay_step_writes(m, ov, h);
        lemma_overlay_run_frame(apply_overlay_step(m, ov, h), ov, headers, j + 1, h);
    }
}

// ------------------------------------------------------------------
// Timestamps stay in base
// ------------------------------------------------------------------

/// A record build step for a header other than the two timestamps keeps
/// the base group's timestamp fields readable.
proof fn lemma_record_keeps_base(
    mappings: MapModel,
    headers: Seq<Seq<char>>,
    processed: Seq<Seq<char>>,
    j: int,
    acc: Seq<(Seq<char>, DataGroupModel)>,
    dv: Seq<char>,
    tv: Seq<char>,
)
    requires
        0 <= j <= headers.len(),
        forall|t: int| j <= t < headers.len() ==> headers[t] != "Date"@ && headers[t] != "Time"@,
        model_get(acc, "base"@) is Some,
        model_get(model_get(acc, "base"@)->Some_0.fields, "Date"@) == Some(dv),
        model_get(model_get(acc, "base"@)->Some_0.fields, "Time"@) == Some(tv),
    ensures
        ({
            let rec = spec_build_record(mappings, headers, processed, j, acc);
            &&& model_get(rec, "base"@) is Some
            &&& model_get(model_get(rec, "base"@)->Some_0.fields, "Date"@) == Some(dv)
            &&& model_get(model_get(rec, "base"@)->Some_0.fields, "Time"@) == Some(tv)
        }),
    decreases headers.len() - j,
{
    if j < headers.len() {
        let h = headers[j];
        let acc2 = match model_get(mappings, h) {
            Some(path) => spec_insert_field(acc, path, h, processed[j]),
            None => acc,
        };
        match model_get(mappings, h) {
            Some(path) => {
                lemma_insert_field_keeps_base(acc, path, h, processed[j], dv, tv);
            },
            None => {},
        }
        lemma_record_keeps_base(mappings, headers, processed, j + 1, acc2, dv, tv);
    }
}

/// One insertion for a non-timestamp field keeps the base group's
/// timestamp fields readable.
proof fn lemma_insert_field_keeps_base(
    acc: Seq<(Seq<char>, DataGroupModel)>,
    path: Seq<Seq<char>>,
    field: Seq<char>,
    value: Seq<char>,
    dv: Seq<char>,
    tv: Seq<char>,
)
    requires
        field != "Date"@,
        field != "Time"@,
        model_get(acc, "base"@) is Some,
        model_get(model_get(acc, "base"@)->Some_0.fields, "Date"@) == Some(dv),
        model_get(model_get(acc, "base"@)->Some_0.fields, "Time"@) == Some(tv),
    ensures
        ({
            let acc2 = spec_insert_field(acc, path, field, value);
            &&& model_get(acc2, "base"@) is Some
            &&& model_get(model_get(acc2, "base"@)->Some_0.fields, "Date"@) == Some(dv)
            &&& model_get(model_get(acc2, "base"@)->Some_0.fields, "Time"@) == Some(tv)
        }),
{
    if path.len() == 0 {
    } else if path[0] != "base"@ {
        let g = match model_get(acc, path[0]) {
            Some(g) => g,
            None => crate::models::empty_model(),
        };
        let g2 = crate::models::spec_dg_insert(g, path, 1, field, value);
        lemma_upsert_preserves_other(acc, path[0], g2, "base"@);
    } else {
        let g = model_get(acc, "base"@)->Some_0;
        let g2 = crate::models::spec_dg_insert(g, path, 1, field, value);
        lemma_upsert_get_same(acc, "base"@, g2);
        if 1 < path.len() {
            assert(g2.fields == g.fields);
        } else {
            lemma_upsert_preserves_other(g.fields, field, value, "Date"@);
            lemma_upsert_preserves_other(g.fields, field, value, "Time"@);
        }
    }
}

/// Every record built from a well-headed row carries a `base` group with
/// both timestamp fields populated — with the row's own first two values.
pub proof fn lemma_record_has_base_timestamps(
    mappings: MapModel,
    headers: Seq<Seq<char>>,
    processed: Seq<Seq<char>>,
)
    requires
        headers.len() >= 2,
        processed.len() == headers.len(),
        headers[0] == "Date"@,
        headers[1] == "Time"@,
        forall|t: int| 2 <= t < headers.len() ==> headers[t] != "Date"@ && headers[t] != "Time"@,
        model_get(mappings, "Date"@) == Some(seq!["base"@]),
        model_get(mappings, "Time"@) == Some(seq!["base"@]),
    ensures
        ({
            let rec = spec_build_record(mappings, headers, processed, 0, Seq::empty());
            &&& model_get(rec, "base"@) is Some
            &&& model_get(model_get(rec, "base"@)->Some_0.fields, "Date"@) == Some(processed[0])
            &&& model_get(model_get(rec, "base"@)->Some_0.fields, "Time"@) == Some(processed[1])
        }),
{
    reveal_strlit("Date");
    reveal_strlit("Time");
    assert("Date"@ != "Time"@) by {
        assert("Date"@[0] == 'D' && "Time"@[0] == 'T');
    }
    let empty_acc = Seq::<(Seq<char>, DataGroupModel)>::empty();
    // Step for "Date".
    let g1 = crate::models::spec_dg_insert(
        crate::models::empty_model(),
        seq!["base"@],
        1,
        "Date"@,
        processed[0],
    );
    let acc1 = spec_insert_field(empty_acc, seq!["base"@], "Date"@, processed[0]);
    lemma_model_find_is(empty_acc, "base"@, 0);
    lemma_upsert_get_same(empty_acc, "base"@, g1);
    lemma_upsert_get_same(crate::models::empty_model().fields, "Date"@, processed[0]);
    assert(model_get(acc1, "base"@) == Some(g1));
    assert(model_get(g1.fields, "Date"@) == Some(processed[0]));
    // Step for "Time".
    let g2 = crate::models::spec_dg_insert(g1, seq!["base"@], 1, "Time"@, processed[1]);
    let acc2 = spec_insert_field(acc1, seq!["base"@], "Time"@, processed[1]);
    lemma_upsert_get_same(acc1, "base"@, g2);
    lemma_upsert_get_same(g1.fields, "Time"@, processed[1]);
    lemma_upsert_preserves_other(g1.fields, "Time"@, processed[1], "Date"@);
    assert(model_get(acc2, "base"@) == Some(g2));
    assert(model_get(g2.fields, "Time"@) == Some(processed[1]));
    assert(model_get(g2.fields, "Date"@) == Some(processed[0]));
    assert(spec_build_record(mappings, headers, processed, 0, empty_acc) == spec_build_record(
        mappings,
        headers,
        processed,
        1,
        acc1,
    ));
    assert(spec_build_record(mappings, headers, processed, 1, acc1) == spec_build_record(
        mappings,
        headers,
        processed,
        2,
        acc2,
    ));
    lemma_record_keeps_base(
        mappings,
        headers,
        processed,
        2,
        acc2,
        processed[0],
        processed[1],
    );
}


/// A record that carries a `base` group with both timestamp fields.
pub open spec fn has_base_timestamps(rec: Seq<(Seq<char>, DataGroupModel)>) -> bool {
    &&& model_get(rec, "base"@) is Some
    &&& model_get(model_get(rec, "base"@)->Some_0.fields, "Date"@) is Some
    &&& model_get(model_get(rec, "base"@)->Some_0.fields, "Time"@) is Some
}

/// The row fold preserves the base-and-timestamps property of every
/// emitted record.
proof fn lemma_process_rows_base(
    mappings: MapModel,
    headers: Seq<Seq<char>>,
    rows: Seq<Seq<Seq<char>>>,
    i: int,
    acc: Seq<Seq<(Seq<char>, DataGroupModel)>>,
    st: (Option<int>, Option<Seq<Seq<char>>>),
    out: Seq<Seq<(Seq<char>, DataGroupModel)>>,
)
    requires
        0 <= i <= rows.len(),
        headers.len() >= 2,
        headers[0] == "Date"@,
        headers[1] == "Time"@,
        forall|t: int| 2 <= t < headers.len() ==> headers[t] != "Date"@ && headers[t] != "Time"@,
        model_get(mappings, "Date"@) == Some(seq!["base"@]),
        model_get(mappings, "Time"@) == Some(seq!["base"@]),
        spec_process_rows(mappings, headers, rows, i, acc, st) == Ok::<
            Seq<Seq<(Seq<char>, DataGroupModel)>>,
            ProcessError,
        >(out),
        forall|x: int| 0 <= x < acc.len() ==> has_base_timestamps(#[trigger] acc[x]),
    ensures
        forall|x: int| 0 <= x < out.len() ==> has_base_timestamps(#[trigger] out[x]),
    decreases rows.len() - i,
{
    if i < rows.len() {
        let step = spec_normalize(rows[i], headers.len() as int, st);
        match step.0 {
            Err(_e) => {},
            Ok(processed) => {
                lemma_normalize_ok_len(rows[i], headers.len() as int, st, processed);
                let rec = spec_build_record(mappings, headers, processed, 0, Seq::empty());
                lemma_record_has_base_timestamps(mappings, headers, processed);
                assert(forall|x: int|
                    0 <= x < acc.push(rec).len() ==> has_base_timestamps(
                        #[trigger] acc.push(rec)[x],
                    ));
                lemma_process_rows_base(
                    mappings,
                    headers,
                    rows,
                    i + 1,
                    acc.push(rec),
                    step.1,
                    out,
                );
            },
        }
    }
}

/// The tail block a structurally accepted file carries.
pub open spec fn analyzed_tail(lines: Seq<Seq<char>>) -> Option<(int, int, Seq<char>)> {
    match spec_analyze(lines) {
        Ok((_h, t)) => t,
        Err(_) => None,
    }
}

/// The effective headers of a parsed body.
pub open spec fn body_headers(lines: Seq<Seq<char>>) -> Seq<Seq<char>> {
    crate::overlay::pop_trailing_empty(parsed_rows(lines)->Some_0[0])
}

/// The effective header map a file is resolved with.
pub open spec fn effective_map_of(p: crate::resolver::DataProcessor, lines: Seq<Seq<char>>) -> MapModel {
    crate::engine::spec_effective_mappings(p, body_headers(lines), analyzed_tail(lines))
}

/// Every record of a successfully ingested file whose headers open with the
/// two timestamp columns — and whose effective map sends both to the `base`
/// group — carries a `base` group with both timestamp fields populated.
pub proof fn lemma_every_record_has_base_timestamps(
    p: crate::resolver::DataProcessor,
    lines: Seq<Seq<char>>,
    out: Seq<Seq<(Seq<char>, DataGroupModel)>>,
)
    requires
        spec_process_lines(p, lines) == Ok::<
            Seq<Seq<(Seq<char>, DataGroupModel)>>,
            ProcessError,
        >(out),
        parsed_rows(lines) matches Some(rows) && rows.len() > 0,
        body_headers(lines).len() >= 2,
        body_headers(lines)[0] == "Date"@,
        body_headers(lines)[1] == "Time"@,
        forall|t: int|
            2 <= t < body_headers(lines).len() ==> body_headers(lines)[t] != "Date"@
                && body_headers(lines)[t] != "Time"@,
        model_get(effective_map_of(p, lines), "Date"@) == Some(seq!["base"@]),
        model_get(effective_map_of(p, lines), "Time"@) == Some(seq!["base"@]),
    ensures
        forall|x: int| 0 <= x < out.len() ==> has_base_timestamps(#[trigger] out[x]),
{
    let rows = parsed_rows(lines)->Some_0;
    match spec_analyze(lines) {
        Ok((_h, tail)) => {
            let headers = body_headers(lines);
            let mappings = effective_map_of(p, lines);
            assert(forall|x: int|
                0 <= x < Seq::<Seq<(Seq<char>, DataGroupModel)>>::empty().len()
                    ==> has_base_timestamps(
                    #[trigger] Seq::<Seq<(Seq<char>, DataGroupModel)>>::empty()[x],
                ));
            lemma_process_rows_base(
                mappings,
                headers,
                rows,
                1,
                Seq::empty(),
                (None, None),
                out,
            );
        },
        Err(_) => {},
    }
}

// ------------------------------------------------------------------
// Determinism
// ------------------------------------------------------------------

/// Ingestion is a pure function of the lines and the schema snapshot: any
/// two results of the same inputs are one and the same, so re-running an
/// unchanged file against an unchanged schema reproduces the output
/// exactly.
pub proof fn lemma_process_deterministic(
    p: crate::resolver::DataProcessor,
    lines: Seq<Seq<char>>,
    r1: Result<Seq<Seq<(Seq<char>, DataGroupModel)>>, ProcessError>,
    r2: Result<Seq<Seq<(Seq<char>, DataGroupModel)>>, ProcessError>,
)
    requires
        r1 == spec_process_lines(p, lines),
        r2 == spec_process_lines(p, lines),
    ensures
        r1 == r2,
{
}

// ------------------------------------------------------------------
// Row widths
// ------------------------------------------------------------------

/// Padding stops exactly at the requested width.
pub proof fn lemma_pad_to_len(fs: Seq<Seq<char>>, n: int)
    ensures
        pad_to(fs, n).len() == if fs.len() >= n {
            fs.len() as int
        } else {
            n
        },
    decreases n - fs.len(),
{
    if fs.len() < n {
        lemma_pad_to_len(fs.push(Seq::<char>::empty()), n);
    }
}

/// Every accepted row leaves normalization at exactly the expected width.
pub proof fn lemma_normalize_ok_len(
    fields0: Seq<Seq<char>>,
    expected: int,
    st: (Option<int>, Option<Seq<Seq<char>>>),
    out: Seq<Seq<char>>,
)
    requires
        expected >= 0,
        spec_normalize(fields0, expected, st).0 == Ok::<Seq<Seq<char>>, ProcessError>(out),
    ensures
        out.len() == expected,
{
    let fields = spec_trim_row(fields0, expected);
    if fields.len() == expected {
    } else if fields.len() == expected + 1 {
    } else if fields.len() < expected {
        lemma_pad_to_len(fields, expected);
    }
}

} // verus!

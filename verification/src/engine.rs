//! The ingestion engine: one file's lines in, a sequence of grouped
//! records out.
//!
//! The raw lines are validated structurally, the tail block (if any) is cut
//! out of the reconstructed CSV body, the body is parsed field by field,
//! the effective header map is built — overlay included, degrading to the
//! schema-only map when the parent-title row cannot be aligned — and every
//! data row is normalized and folded into a fresh group tree.  The result
//! is a function of the lines and the schema snapshot alone.

use vstd::prelude::*;

use crate::errors::ProcessError;
use crate::models::{
    assoc_find_idx, clone_string_vec, dg_children_model, empty_model, lemma_dg_children_model_index,
    lemma_model_find_is, map_model, model_get, model_upsert, spec_dg_insert, DataGroup,
    DataGroupModel,
};
use crate::normalize::{spec_normalize, st_model, st_wf, RecordAlignmentState};
use crate::overlay::{pop_trailing_empty, spec_build_overlay};
use crate::resolver::{apply_overlay, spec_build_mappings, DataProcessor, MapModel};
use crate::validate::{spec_analyze, tail_opt_model, TailGroupMeta};

verus! {

/// What the CSV reader yields for an in-memory body: all rows' fields, or
/// nothing when the body is rejected.  A function of the text alone.
pub uninterp spec fn csv_rows(content: Seq<char>) -> Option<Seq<Seq<Seq<char>>>>;

/// Relies on `csv::ReaderBuilder` and `csv::StringRecord`: reading an
/// in-memory body with fixed settings (no header row, flexible widths)
/// depends on the text alone, so the parsed rows bear a name.
#[verifier::external_body]
fn csv_parse_rows(content: &str) -> (r: Option<Vec<Vec<String>>>)
    ensures
        r is Some <==> csv_rows(content@) is Some,
        r matches Some(rows) ==> csv_rows(content@) == Some(rows.deep_view()),
{
    let mut rdr = csv::ReaderBuilder::new().has_headers(false).flexible(true).from_reader(
        content.as_bytes(),
    );
    let mut out: Vec<Vec<String>> = Vec::new();
    for rec in rdr.records() {
        match rec {
            Ok(r) => out.push(r.iter().map(|f| f.to_string()).collect()),
            Err(_) => return None,
        }
    }
    Some(out)
}

/// The CSV body rebuilt from the lines, each followed by a newline, with
/// the two tail indices left out (`-1` stands for none).
pub open spec fn body_content(lines: Seq<Seq<char>>, skip1: int, skip2: int) -> Seq<char>
    decreases lines,
{
    if lines.len() == 0 {
        Seq::empty()
    } else {
        let pre = body_content(lines.drop_last(), skip1, skip2);
        let i = lines.len() - 1;
        if i == skip1 || i == skip2 {
            pre
        } else {
            pre + lines.last().push('\n')
        }
    }
}

/// The model of a record: its top-level groups in insertion order.
pub open spec fn records_model(recs: Seq<Vec<(String, DataGroup)>>) -> Seq<
    Seq<(Seq<char>, DataGroupModel)>,
> {
    recs.map_values(|rec: Vec<(String, DataGroup)>| dg_children_model(rec@))
}

/// Store one resolved triple: walk or create the top-level group named by
/// the path head, then descend.
pub open spec fn spec_insert_field(
    groups: Seq<(Seq<char>, DataGroupModel)>,
    path: Seq<Seq<char>>,
    field: Seq<char>,
    value: Seq<char>,
) -> Seq<(Seq<char>, DataGroupModel)> {
    if path.len() == 0 {
        groups
    } else {
        let g = match model_get(groups, path[0]) {
            Some(g) => g,
            None => empty_model(),
        };
        let g2 = spec_dg_insert(g, path, 1, field, value);
        model_upsert(groups, path[0], g2)
    }
}

/// One row folded into a record: headers in order, mapped ones inserted.
pub open spec fn spec_build_record(
    mappings: MapModel,
    headers: Seq<Seq<char>>,
    processed: Seq<Seq<char>>,
    j: int,
    acc: Seq<(Seq<char>, DataGroupModel)>,
) -> Seq<(Seq<char>, DataGroupModel)>
    decreases headers.len() - j,
{
    if j < 0 || j >= headers.len() {
        acc
    } else {
        let acc2 = match model_get(mappings, headers[j]) {
            Some(path) => spec_insert_field(acc, path, headers[j], processed[j]),
            None => acc,
        };
        spec_build_record(mappings, headers, processed, j + 1, acc2)
    }
}

/// The data rows from `i` on, each normalized and built into a record;
/// the first error aborts the whole file.
pub open spec fn spec_process_rows(
    mappings: MapModel,
    headers: Seq<Seq<char>>,
    rows: Seq<Seq<Seq<char>>>,
    i: int,
    acc: Seq<Seq<(Seq<char>, DataGroupModel)>>,
    st: (Option<int>, Option<Seq<Seq<char>>>),
) -> Result<Seq<Seq<(Seq<char>, DataGroupModel)>>, ProcessError>
    decreases rows.len() - i,
{
    if i < 0 || i >= rows.len() {
        Ok(acc)
    } else {
        let step = spec_normalize(rows[i], headers.len() as int, st);
        match step.0 {
            Err(e) => Err(e),
            Ok(processed) => {
                let rec = spec_build_record(mappings, headers, processed, 0, Seq::empty());
                spec_process_rows(mappings, headers, rows, i + 1, acc.push(rec), step.1)
            },
        }
    }
}

/// The effective header map for a parsed body.
pub open spec fn spec_effective_mappings(
    p: DataProcessor,
    headers: Seq<Seq<char>>,
    tail: Option<(int, int, Seq<char>)>,
) -> MapModel {
    let base = spec_build_mappings(
        map_model(p.static_field_map@),
        map_model(p.regex_rules@),
        headers,
        0,
    );
    match tail {
        Some((_r, _p, parent_line)) => match spec_build_overlay(headers, parent_line) {
            Ok(ov) => apply_overlay(base, ov, headers, 0),
            Err(_) => base,
        },
        None => base,
    }
}

/// What ingestion yields for a line sequence: the per-record group maps in
/// row order, or the first error.
pub open spec fn spec_process_lines(p: DataProcessor, lines: Seq<Seq<char>>) -> Result<
    Seq<Seq<(Seq<char>, DataGroupModel)>>,
    ProcessError,
> {
    match spec_analyze(lines) {
        Err(e) => Err(e),
        Ok((_header_line, tail)) => {
            let skips = match tail {
                Some((r, pl, _)) => (r, pl),
                None => (-1int, -1int),
            };
            let content = body_content(lines, skips.0, skips.1);
            match csv_rows(content) {
                None => Err(ProcessError::CsvUnreadable),
                Some(rows) => {
                    if rows.len() == 0 {
                        Ok(Seq::empty())
                    } else {
                        let headers = pop_trailing_empty(rows[0]);
                        let mappings = spec_effective_mappings(p, headers, tail);
                        spec_process_rows(
                            mappings,
                            headers,
                            rows,
                            1,
                            Seq::empty(),
                            (None, None),
                        )
                    }
                },
            }
        },
    }
}

impl DataProcessor {
    /// Trim trailing all-whitespace header cells, a trailing-separator
    /// artifact; mirrors [`pop_trailing_empty`].
    pub fn normalize_headers(raw_headers: &Vec<String>) -> (r: Vec<String>)
        ensures
            r.deep_view() == pop_trailing_empty(raw_headers.deep_view()),
    {
        let mut headers = clone_string_vec(raw_headers);
        while headers.len() > 0 && crate::text::is_blank(headers[headers.len() - 1].as_str())
            invariant
                pop_trailing_empty(headers.deep_view()) == pop_trailing_empty(
                    raw_headers.deep_view(),
                ),
            decreases headers.len(),
        {
            let ghost before = headers.deep_view();
            proof {
                assert(before.last() == headers@[headers@.len() - 1]@);
            }
            headers.pop();
            proof {
                assert(headers.deep_view() =~= before.drop_last());
            }
        }
        proof {
            assert(pop_trailing_empty(headers.deep_view()) == headers.deep_view());
        }
        headers
    }

    /// Store one resolved triple into the record's group map; mirrors
    /// [`spec_insert_field`].
    fn insert_field(
        &self,
        data_groups: &mut Vec<(String, DataGroup)>,
        path: &Vec<String>,
        field_name: &str,
        value: String,
    )
        ensures
            dg_children_model(final(data_groups)@) == spec_insert_field(
                dg_children_model(old(data_groups)@),
                path.deep_view(),
                field_name@,
                value@,
            ),
    {
        let ghost groups0 = dg_children_model(old(data_groups)@);
        let ghost pv = path.deep_view();
        if path.len() == 0 {
            return;
        }
        let first = &path[0];
        let j = assoc_find_idx(data_groups, first.as_str());
        proof {
            lemma_dg_children_model_index(data_groups@);
            lemma_model_find_is(groups0, first@, j as int);
            assert(pv[0] == first@);
        }
        if j < data_groups.len() {
            let ghost oldchild = data_groups@[j as int].1;
            let e = vstd::std_specs::vec::vec_index_mut(data_groups, j);
            e.1.insert_at(path.as_slice(), 1, field_name, value);
            proof {
                assert(path@.map_values(|s: String| s@) =~= pv);
                assert(model_get(groups0, first@) == Some(crate::models::dg_model(oldchild)));
                lemma_dg_children_model_index(data_groups@);
                assert(dg_children_model(data_groups@) =~= model_upsert(
                    groups0,
                    first@,
                    spec_dg_insert(crate::models::dg_model(oldchild), pv, 1, field_name@, value@),
                ));
            }
        } else {
            proof {
                assert(model_get(groups0, first@) is None);
            }
            let mut child = DataGroup::new();
            child.insert_at(path.as_slice(), 1, field_name, value);
            let key = first.clone();
            data_groups.push((key, child));
            proof {
                assert(path@.map_values(|s: String| s@) =~= pv);
                lemma_dg_children_model_index(old(data_groups)@);
                lemma_dg_children_model_index(data_groups@);
                assert(dg_children_model(data_groups@) =~= model_upsert(
                    groups0,
                    first@,
                    spec_dg_insert(empty_model(), pv, 1, field_name@, value@),
                ));
            }
        }
    }

    /// Ingest one file's lines against this schema snapshot; mirrors
    /// [`spec_process_lines`].
    #[verifier::loop_isolation(false)]
    pub fn process_csv_lines(&self, lines: &Vec<String>) -> (r: Result<
        Vec<Vec<(String, DataGroup)>>,
        ProcessError,
    >)
        ensures
            match r {
                Ok(recs) => spec_process_lines(*self, lines.deep_view()) == Ok::<
                    Seq<Seq<(Seq<char>, DataGroupModel)>>,
                    ProcessError,
                >(records_model(recs@)),
                Err(e) => spec_process_lines(*self, lines.deep_view()) == Err::<
                    Seq<Seq<(Seq<char>, DataGroupModel)>>,
                    ProcessError,
                >(e),
            },
    {
        let ghost lv = lines.deep_view();
        let tail: Option<TailGroupMeta> = match crate::validate::analyze_hwinfo_lines(lines) {
            Ok((_header_line, t)) => t,
            Err(e) => {
                return Err(e);
            },
        };
        let ghost stail = tail_opt_model(tail);
        let ghost skip1: int = match stail {
            Some((r, _p, _t)) => r,
            None => -1,
        };
        let ghost skip2: int = match stail {
            Some((_r, p, _t)) => p,
            None => -1,
        };

        proof {
            reveal_strlit("\n");
        }
        let mut content = String::new();
        let n = lines.len();
        let mut i: usize = 0;
        while i < n
            invariant
                0 <= i <= n,
                content@ == body_content(lv.subrange(0, i as int), skip1, skip2),
            decreases n - i,
        {
            proof {
                assert(lv.subrange(0, i as int + 1).drop_last() =~= lv.subrange(0, i as int));
                assert(lv.subrange(0, i as int + 1).last() == lv[i as int]);
            }
            let skip = match &tail {
                Some(meta) => i == meta.repeated_header_idx || i == meta.parent_line_idx,
                None => false,
            };
            if !skip {
                proof {
                    assert(lv[i as int] == lines@[i as int]@);
                }
                content.append(lines[i].as_str());
                content.append("\n");
                proof {
                    assert("\n"@ =~= seq!['\n']);
                    assert(content@ =~= body_content(lv.subrange(0, i as int), skip1, skip2) + lv[
                        i as int].push('\n'));
                }
            }
            i += 1;
        }
        proof {
            assert(lv.subrange(0, n as int) =~= lv);
        }

        let rows: Vec<Vec<String>> = match csv_parse_rows(content.as_str()) {
            Some(rows) => rows,
            None => {
                return Err(ProcessError::CsvUnreadable);
            },
        };
        let ghost rowsv = rows.deep_view();

        if rows.len() == 0 {
            let empty: Vec<Vec<(String, DataGroup)>> = Vec::new();
            proof {
                assert(records_model(empty@) =~= Seq::<Seq<(Seq<char>, DataGroupModel)>>::empty());
            }
            return Ok(empty);
        }

        proof {
            assert(rows@[0].deep_view() == rowsv[0]);
        }
        let headers = Self::normalize_headers(&rows[0]);
        let ghost hv = headers.deep_view();

        let overlay: Option<Vec<(String, String)>> = match &tail {
            Some(meta) => match crate::overlay::build_overlay_from_parent_line(
                &headers,
                meta.parent_line.as_str(),
            ) {
                Ok(map) => Some(map),
                Err(_e) => None,
            },
            None => None,
        };

        let field_mappings = self.build_field_mappings_with_overlay(&headers, overlay.as_ref());
        let ghost mm = spec_effective_mappings(*self, hv, stail);
        proof {
            assert(map_model(field_mappings@) == mm);
        }

        let mut all_records: Vec<Vec<(String, DataGroup)>> = Vec::new();
        proof {
            assert(records_model(all_records@) =~= Seq::<Seq<(Seq<char>, DataGroupModel)>>::empty());
        }
        let mut align_state = RecordAlignmentState::new();
        let expected_len = headers.len();
        let mut ri: usize = 1;
        while ri < rows.len()
            invariant
                1 <= ri <= rows@.len(),
                rowsv == rows.deep_view(),
                rowsv.len() == rows@.len(),
                expected_len == hv.len(),
                st_wf(align_state, expected_len as int),
                map_model(field_mappings@) == mm,
                spec_process_rows(mm, hv, rowsv, 1, Seq::empty(), (None, None))
                    == spec_process_rows(
                    mm,
                    hv,
                    rowsv,
                    ri as int,
                    records_model(all_records@),
                    st_model(align_state),
                ),
            decreases rows@.len() - ri,
        {
            proof {
                assert(rows@[ri as int].deep_view() == rowsv[ri as int]);
            }
            let processed: Vec<String> = match DataProcessor::normalize_and_process_record(
                &rows[ri],
                expected_len,
                &mut align_state,
            ) {
                Ok(p) => p,
                Err(e) => {
                    return Err(e);
                },
            };
            let ghost pd = processed.deep_view();

            let mut data_groups: Vec<(String, DataGroup)> = Vec::new();
            proof {
                assert(dg_children_model(data_groups@) =~= Seq::<
                    (Seq<char>, DataGroupModel),
                >::empty());
            }
            let mut j: usize = 0;
            while j < expected_len
                invariant
                    0 <= j <= expected_len,
                    pd == processed.deep_view(),
                    processed@.len() == expected_len,
                    map_model(field_mappings@) == mm,
                    spec_build_record(mm, hv, pd, 0, Seq::empty()) == spec_build_record(
                        mm,
                        hv,
                        pd,
                        j as int,
                        dg_children_model(data_groups@),
                    ),
                decreases expected_len - j,
            {
                proof {
                    assert(hv[j as int] == headers@[j as int]@);
                    assert(pd[j as int] == processed@[j as int]@);
                }
                let header = &headers[j];
                let mj = assoc_find_idx(&field_mappings, header.as_str());
                proof {
                    lemma_model_find_is(mm, header@, mj as int);
                }
                if mj < field_mappings.len() {
                    let path = &field_mappings[mj].1;
                    let value = processed[j].clone();
                    self.insert_field(&mut data_groups, path, header.as_str(), value);
                    proof {
                        assert(path.deep_view() == mm[mj as int].1);
                        assert(model_get(mm, hv[j as int]) == Some(path.deep_view()));
                    }
                }
                j += 1;
            }
            let ghost recs_before = records_model(all_records@);
            let ghost dgm = dg_children_model(data_groups@);
            all_records.push(data_groups);
            proof {
                assert(records_model(all_records@) =~= recs_before.push(dgm));
            }
            ri += 1;
        }
        proof {
            assert(spec_process_rows(
                mm,
                hv,
                rowsv,
                rows@.len() as int,
                records_model(all_records@),
                st_model(align_state),
            ) == Ok::<Seq<Seq<(Seq<char>, DataGroupModel)>>, ProcessError>(records_model(
                all_records@,
            )));
        }
        Ok(all_records)
    }
}


/// Ingestion fell back to the schema-only mapping: tail metadata was found
/// but its parent-title row could not be aligned with the headers.
pub open spec fn spec_overlay_degraded(lines: Seq<Seq<char>>) -> bool {
    match spec_analyze(lines) {
        Ok((_h, Some((r, pl, parent_line)))) => match csv_rows(body_content(lines, r, pl)) {
            Some(rows) => rows.len() > 0 && spec_build_overlay(
                pop_trailing_empty(rows[0]),
                parent_line,
            ) is Err,
            None => false,
        },
        _ => false,
    }
}

impl DataProcessor {
    /// Whether ingesting these lines would silently keep the schema-only
    /// mapping although the file carries tail metadata; callers use it to
    /// report the degrade distinctly from a full-fidelity parse.  Mirrors
    /// [`spec_overlay_degraded`].
    #[verifier::loop_isolation(false)]
    pub fn overlay_degraded(lines: &Vec<String>) -> (r: bool)
        ensures
            r == spec_overlay_degraded(lines.deep_view()),
    {
        let ghost lv = lines.deep_view();
        let meta: TailGroupMeta = match crate::validate::analyze_hwinfo_lines(lines) {
            Ok((_h, Some(meta))) => meta,
            Ok((_h, None)) => {
                return false;
            },
            Err(_e) => {
                return false;
            },
        };
        proof {
            reveal_strlit("\n");
        }
        let mut content = String::new();
        let n = lines.len();
        let mut i: usize = 0;
        while i < n
            invariant
                0 <= i <= n,
                content@ == body_content(
                    lv.subrange(0, i as int),
                    meta.repeated_header_idx as int,
                    meta.parent_line_idx as int,
                ),
            decreases n - i,
        {
            proof {
                assert(lv.subrange(0, i as int + 1).drop_last() =~= lv.subrange(0, i as int));
                assert(lv.subrange(0, i as int + 1).last() == lv[i as int]);
            }
            if !(i == meta.repeated_header_idx || i == meta.parent_line_idx) {
                proof {
                    assert(lv[i as int] == lines@[i as int]@);
                }
                content.append(lines[i].as_str());
                content.append("\n");
                proof {
                    assert("\n"@ =~= seq!['\n']);
                    assert(content@ =~= body_content(
                        lv.subrange(0, i as int),
                        meta.repeated_header_idx as int,
                        meta.parent_line_idx as int,
                    ) + lv[i as int].push('\n'));
                }
            }
            i += 1;
        }
        proof {
            assert(lv.subrange(0, n as int) =~= lv);
        }
        let rows: Vec<Vec<String>> = match csv_parse_rows(content.as_str()) {
            Some(rows) => rows,
            None => {
                return false;
            },
        };
        if rows.len() == 0 {
            return false;
        }
        proof {
            assert(rows@[0].deep_view() == rows.deep_view()[0]);
        }
        let headers = Self::normalize_headers(&rows[0]);
        match crate::overlay::build_overlay_from_parent_line(&headers, meta.parent_line.as_str()) {
            Ok(_map) => false,
            Err(_e) => true,
        }
    }
}

} // verus!

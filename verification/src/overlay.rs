//! Parsing of the tail block's parent-title row into per-column group
//! overrides.
//!
//! The row is split on separators, except that separators inside matching
//! square brackets or inside quote pairs are literal.  Trailing empty fields
//! are dropped, a shortfall is padded, and any remaining length disagreement
//! is an overlay-only error — callers degrade to the schema-only mapping.

use vstd::prelude::*;

use crate::errors::ProcessError;
use crate::models::{model_upsert, sv_model};
use crate::text::{is_blank, trim_spec, trim_str};

verus! {

/// Bracket depth after one more character, capped as the counter is.
pub open spec fn sat_inc(d: int) -> int {
    if d < u32::MAX as int {
        d + 1
    } else {
        d
    }
}

/// Bracket depth after a closing bracket; never below zero.
pub open spec fn sat_dec(d: int) -> int {
    if d > 0 {
        d - 1
    } else {
        0
    }
}

/// One step of the splitter: `(finished fields, current field, quote state,
/// bracket depth)` after reading `ch`.
pub open spec fn split_step(
    st: (Seq<Seq<char>>, Seq<char>, bool, int),
    ch: char,
) -> (Seq<Seq<char>>, Seq<char>, bool, int) {
    let (fields, cur, in_quotes, depth) = st;
    if ch == '"' {
        (fields, cur.push(ch), !in_quotes, depth)
    } else if ch == '[' && !in_quotes {
        (fields, cur.push(ch), in_quotes, sat_inc(depth))
    } else if ch == ']' && !in_quotes {
        (fields, cur.push(ch), in_quotes, sat_dec(depth))
    } else if ch == ',' && !in_quotes && depth == 0 {
        (fields.push(cur), Seq::empty(), in_quotes, depth)
    } else {
        (fields, cur.push(ch), in_quotes, depth)
    }
}

/// The splitter state after reading all of `line`.
pub open spec fn split_scan(line: Seq<char>) -> (Seq<Seq<char>>, Seq<char>, bool, int)
    decreases line,
{
    if line.len() == 0 {
        (Seq::empty(), Seq::empty(), false, 0)
    } else {
        split_step(split_scan(line.drop_last()), line.last())
    }
}

/// The fields of a parent-title row: separators inside brackets or quotes
/// are literal; the unfinished last field always counts.
pub open spec fn split_parent_spec(line: Seq<char>) -> Seq<Seq<char>> {
    let st = split_scan(line);
    st.0.push(st.1)
}

/// `fs` without its trailing all-whitespace fields.
pub open spec fn pop_trailing_empty(fs: Seq<Seq<char>>) -> Seq<Seq<char>>
    decreases fs,
{
    if fs.len() > 0 && trim_spec(fs.last()).len() == 0 {
        pop_trailing_empty(fs.drop_last())
    } else {
        fs
    }
}

/// `fs` padded at the right with empty fields up to length `n`.
pub open spec fn pad_to(fs: Seq<Seq<char>>, n: int) -> Seq<Seq<char>>
    decreases n - fs.len(),
{
    if fs.len() >= n {
        fs
    } else {
        pad_to(fs.push(Seq::<char>::empty()), n)
    }
}

/// The overlay accumulated over `headers[i..]`: a non-blank field at a
/// non-timestamp header's index becomes that header's override.
pub open spec fn overlay_fold(
    headers: Seq<Seq<char>>,
    fs: Seq<Seq<char>>,
    i: int,
    acc: Seq<(Seq<char>, Seq<char>)>,
) -> Seq<(Seq<char>, Seq<char>)>
    decreases headers.len() - i,
{
    if i < 0 || i >= headers.len() {
        acc
    } else {
        let acc2 = if headers[i] == "Date"@ || headers[i] == "Time"@ {
            acc
        } else {
            let parent = trim_spec(fs[i]);
            if parent.len() == 0 {
                acc
            } else {
                model_upsert(acc, headers[i], parent)
            }
        };
        overlay_fold(headers, fs, i + 1, acc2)
    }
}

/// What overlay construction yields for given headers and parent-title row:
/// the override map, or the overlay-only alignment error.
pub open spec fn spec_build_overlay(headers: Seq<Seq<char>>, line: Seq<char>) -> Result<
    Seq<(Seq<char>, Seq<char>)>,
    ProcessError,
> {
    let fs = pop_trailing_empty(split_parent_spec(line));
    let padded = pad_to(fs, headers.len() as int);
    if padded.len() != headers.len() {
        Err(
            ProcessError::OverlayColumnMismatch {
                headers_len: headers.len() as usize,
                parent_len: padded.len() as usize,
            },
        )
    } else {
        Ok(overlay_fold(headers, padded, 0, Seq::empty()))
    }
}

/// Split the parent-title row on separators, keeping separators inside
/// matching brackets or quote pairs literal; mirrors [`split_parent_spec`].
pub fn split_parent_title_line(line: &str) -> (r: Vec<String>)
    ensures
        r.deep_view() == split_parent_spec(line@),
{
    let n = line.unicode_len();
    let mut fields: Vec<String> = Vec::new();
    let mut seg_start: usize = 0;
    let mut in_quotes: bool = false;
    let mut depth: u32 = 0;
    let mut i: usize = 0;
    while i < n
        invariant
            n == line@.len(),
            0 <= seg_start <= i <= n,
            ({
                let st = split_scan(line@.subrange(0, i as int));
                &&& st.0 == fields.deep_view()
                &&& st.1 == line@.subrange(seg_start as int, i as int)
                &&& st.2 == in_quotes
                &&& st.3 == depth as int
            }),
        decreases n - i,
    {
        let ch = line.get_char(i);
        proof {
            assert(line@.subrange(0, i as int + 1).drop_last() =~= line@.subrange(0, i as int));
            assert(line@.subrange(0, i as int + 1).last() == line@[i as int]);
        }
        if ch == '"' {
            in_quotes = !in_quotes;
            proof {
                assert(line@.subrange(seg_start as int, i as int + 1) =~= line@.subrange(
                    seg_start as int,
                    i as int,
                ).push(line@[i as int]));
            }
        } else if ch == '[' && !in_quotes {
            if depth < u32::MAX {
                depth = depth + 1;
            }
            proof {
                assert(line@.subrange(seg_start as int, i as int + 1) =~= line@.subrange(
                    seg_start as int,
                    i as int,
                ).push(line@[i as int]));
            }
        } else if ch == ']' && !in_quotes {
            if depth > 0 {
                depth = depth - 1;
            }
            proof {
                assert(line@.subrange(seg_start as int, i as int + 1) =~= line@.subrange(
                    seg_start as int,
                    i as int,
                ).push(line@[i as int]));
            }
        } else if ch == ',' && !in_quotes && depth == 0 {
            let ghost oldstart = seg_start as int;
            let ghost oldfields = fields.deep_view();
            let seg = line.substring_char(seg_start, i).to_owned();
            fields.push(seg);
            seg_start = i + 1;
            proof {
                assert(fields.deep_view() =~= oldfields.push(
                    line@.subrange(oldstart, i as int),
                ));
                assert(line@.subrange(seg_start as int, i as int + 1) =~= Seq::<char>::empty());
            }
        } else {
            proof {
                assert(line@.subrange(seg_start as int, i as int + 1) =~= line@.subrange(
                    seg_start as int,
                    i as int,
                ).push(line@[i as int]));
            }
        }
        i += 1;
    }
    let last = line.substring_char(seg_start, n).to_owned();
    fields.push(last);
    proof {
        assert(line@.subrange(0, n as int) =~= line@);
        assert(fields.deep_view() =~= split_scan(line@).0.push(
            line@.subrange(seg_start as int, n as int),
        ));
    }
    fields
}

/// Build the per-file override map from the parent-title row; mirrors
/// [`spec_build_overlay`].  On the error the caller keeps the schema-only
/// mapping.
pub fn build_overlay_from_parent_line(headers: &Vec<String>, parent_line: &str) -> (r: Result<
    Vec<(String, String)>,
    ProcessError,
>)
    ensures
        match r {
            Ok(m) => spec_build_overlay(headers.deep_view(), parent_line@) == Ok::<
                Seq<(Seq<char>, Seq<char>)>,
                ProcessError,
            >(sv_model(m@)),
            Err(e) => spec_build_overlay(headers.deep_view(), parent_line@) == Err::<
                Seq<(Seq<char>, Seq<char>)>,
                ProcessError,
            >(e),
        },
{
    let ghost hv = headers.deep_view();
    let mut fields = split_parent_title_line(parent_line);

    while fields.len() > 0 && is_blank(fields[fields.len() - 1].as_str())
        invariant
            pop_trailing_empty(fields.deep_view()) == pop_trailing_empty(
                split_parent_spec(parent_line@),
            ),
        decreases fields.len(),
    {
        proof {
            assert(fields.deep_view().drop_last() =~= fields@.drop_last().map_values(
                |s: String| s@,
            ));
        }
        let ghost before = fields.deep_view();
        fields.pop();
        proof {
            assert(fields.deep_view() =~= before.drop_last());
        }
    }
    proof {
        assert(pop_trailing_empty(fields.deep_view()) == fields.deep_view());
    }

    let hn = headers.len();
    while fields.len() < hn
        invariant
            hn == hv.len(),
            pad_to(fields.deep_view(), hn as int) == pad_to(
                pop_trailing_empty(split_parent_spec(parent_line@)),
                hn as int,
            ),
        decreases hn - fields.len(),
    {
        let ghost before = fields.deep_view();
        fields.push(String::new());
        proof {
            assert(fields.deep_view() =~= before.push(Seq::<char>::empty()));
        }
    }
    proof {
        assert(pad_to(fields.deep_view(), hn as int) == fields.deep_view());
    }

    if fields.len() != hn {
        return Err(
            ProcessError::OverlayColumnMismatch { headers_len: hn, parent_len: fields.len() },
        );
    }

    let ghost fv = fields.deep_view();
    let mut overlay: Vec<(String, String)> = Vec::new();
    proof {
        assert(sv_model(overlay@) =~= Seq::<(Seq<char>, Seq<char>)>::empty());
    }
    let mut idx: usize = 0;
    while idx < hn
        invariant
            hn == hv.len(),
            hn == fv.len(),
            fv == fields.deep_view(),
            hv == headers.deep_view(),
            fields@.len() == fv.len(),
            headers@.len() == hv.len(),
            forall|j: int| 0 <= j < hv.len() ==> hv[j] == headers@[j]@,
            forall|j: int| 0 <= j < fv.len() ==> fv[j] == fields@[j]@,
            0 <= idx <= hn,
            overlay_fold(hv, fv, 0, Seq::empty()) == overlay_fold(
                hv,
                fv,
                idx as int,
                sv_model(overlay@),
            ),
        decreases hn - idx,
    {
        let header = &headers[idx];
        let is_ts = crate::text::str_eq(header.as_str(), "Date") || crate::text::str_eq(
            header.as_str(),
            "Time",
        );
        if !is_ts {
            let parent = trim_str(fields[idx].as_str());
            if parent.as_str().unicode_len() > 0 {
                let key = header.clone();
                crate::models::assoc_upsert(&mut overlay, key.as_str(), parent);
            }
        }
        idx += 1;
    }
    Ok(overlay)
}

} // verus!

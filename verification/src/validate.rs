//! Structural validation of a file's raw line sequence.
//!
//! Exactly two shapes are accepted: the subtitle header only at the top, or
//! the subtitle header at the top plus a tail block of two lines — the
//! repeated header at the second-to-last non-empty position and a
//! parent-title row (both timestamp columns empty) as the last non-empty
//! line.  Anything else is rejected; silently accepting an ambiguous tail
//! would corrupt the grouping.

use vstd::prelude::*;

use crate::errors::ProcessError;
use crate::text::{
    has_prefix, is_header_like, is_nonempty_line, norm_spec, normalize_for_compare,
    str_has_prefix,
};

verus! {

/// The tail block, when the second accepted shape is found.
#[derive(Debug, Clone)]
pub struct TailGroupMeta {
    /// Index in the line sequence of the repeated subtitle header.
    pub repeated_header_idx: usize,
    /// Index in the line sequence of the parent-title line.
    pub parent_line_idx: usize,
    /// Raw text of the parent-title line.
    pub parent_line: String,
}

/// The mathematical shape of a tail block: both indices and the raw
/// parent-title text.
pub open spec fn tail_model(m: TailGroupMeta) -> (int, int, Seq<char>) {
    (m.repeated_header_idx as int, m.parent_line_idx as int, m.parent_line@)
}

/// The model of an optional tail block.
pub open spec fn tail_opt_model(m: Option<TailGroupMeta>) -> Option<(int, int, Seq<char>)> {
    match m {
        Some(t) => Some(tail_model(t)),
        None => None,
    }
}

/// Indices of the non-empty lines, in order.
pub open spec fn nonempty_idxs(lines: Seq<Seq<char>>) -> Seq<int>
    decreases lines,
{
    if lines.len() == 0 {
        Seq::empty()
    } else {
        let pre = nonempty_idxs(lines.drop_last());
        if is_nonempty_line(lines.last()) {
            pre.push(lines.len() - 1)
        } else {
            pre
        }
    }
}

/// Indices of the non-empty lines that look like the subtitle header, in
/// order.
pub open spec fn header_like_idxs(lines: Seq<Seq<char>>) -> Seq<int>
    decreases lines,
{
    if lines.len() == 0 {
        Seq::empty()
    } else {
        let pre = header_like_idxs(lines.drop_last());
        if is_nonempty_line(lines.last()) && is_header_like(lines.last()) {
            pre.push(lines.len() - 1)
        } else {
            pre
        }
    }
}

/// What structural validation decides for a line sequence: the header line
/// and the optional tail block, or the exact error.
pub open spec fn spec_analyze(lines: Seq<Seq<char>>) -> Result<
    (Seq<char>, Option<(int, int, Seq<char>)>),
    ProcessError,
> {
    let ne = nonempty_idxs(lines);
    let hl = header_like_idxs(lines);
    if ne.len() == 0 {
        Err(ProcessError::EmptyFile)
    } else {
        let header_idx = ne[0];
        if hl.len() == 0 || hl[0] != header_idx {
            Err(ProcessError::FirstLineNotHeader)
        } else {
            let last_idx = ne.last();
            let last_norm = norm_spec(lines[last_idx]);
            if hl.len() == 1 {
                if has_prefix(last_norm, ",,"@) {
                    Err(ProcessError::MissingRepeatedHeader)
                } else {
                    Ok((lines[header_idx], None))
                }
            } else if hl.len() == 2 {
                if ne.len() < 2 {
                    Err(ProcessError::ContentTooShort)
                } else {
                    let penultimate_idx = ne[ne.len() - 2];
                    let second_header_idx = hl[1];
                    if second_header_idx != penultimate_idx {
                        Err(ProcessError::RepeatedHeaderMisplaced)
                    } else if !has_prefix(last_norm, ",,"@) {
                        Err(ProcessError::LastLineNotParentTitle)
                    } else {
                        Ok((lines[header_idx], Some((second_header_idx, last_idx, lines[last_idx]))))
                    }
                }
            } else {
                Err(ProcessError::TooManyHeaderLines)
            }
        }
    }
}

/// Classify the raw line sequence into one of the two accepted shapes and
/// extract the optional tail block; mirrors [`spec_analyze`] exactly.
pub fn analyze_hwinfo_lines(lines: &Vec<String>) -> (r: Result<
    (String, Option<TailGroupMeta>),
    ProcessError,
>)
    ensures
        match r {
            Ok((h, m)) => spec_analyze(lines.deep_view()) == Ok::<
                (Seq<char>, Option<(int, int, Seq<char>)>),
                ProcessError,
            >((h@, tail_opt_model(m))),
            Err(e) => spec_analyze(lines.deep_view()) == Err::<
                (Seq<char>, Option<(int, int, Seq<char>)>),
                ProcessError,
            >(e),
        },
{
    let ghost lv = lines.deep_view();
    let n = lines.len();
    let mut ne: Vec<usize> = Vec::new();
    let mut hl: Vec<usize> = Vec::new();
    let mut i: usize = 0;
    while i < n
        invariant
            n == lines@.len(),
            lv == lines.deep_view(),
            lv.len() == n,
            forall|j: int| 0 <= j < n ==> lv[j] == lines@[j]@,
            0 <= i <= n,
            ne@.map_values(|x: usize| x as int) == nonempty_idxs(lv.subrange(0, i as int)),
            hl@.map_values(|x: usize| x as int) == header_like_idxs(lv.subrange(0, i as int)),
            forall|j: int| 0 <= j < ne@.len() ==> ne@[j] < n,
            forall|j: int| 0 <= j < hl@.len() ==> hl@[j] < n,
        decreases n - i,
    {
        let norm = normalize_for_compare(lines[i].as_str());
        proof {
            assert(lv.subrange(0, i as int + 1).drop_last() =~= lv.subrange(0, i as int));
            assert(lv.subrange(0, i as int + 1).last() == lv[i as int]);
        }
        if norm.as_str().unicode_len() > 0 {
            ne.push(i);
            if str_has_prefix(norm.as_str(), "Date,Time") {
                hl.push(i);
                proof {
                    assert(hl@.map_values(|x: usize| x as int) =~= header_like_idxs(
                        lv.subrange(0, i as int),
                    ).push(i as int));
                }
            } else {
                proof {
                    assert(header_like_idxs(lv.subrange(0, i as int + 1)) == header_like_idxs(
                        lv.subrange(0, i as int),
                    ));
                }
            }
            proof {
                assert(ne@.map_values(|x: usize| x as int) =~= nonempty_idxs(
                    lv.subrange(0, i as int),
                ).push(i as int));
            }
        } else {
            proof {
                assert(!is_nonempty_line(lv[i as int]));
                assert(!(is_nonempty_line(lv[i as int]) && is_header_like(lv[i as int])));
            }
        }
        i += 1;
    }
    proof {
        assert(lv.subrange(0, n as int) =~= lv);
    }
    let ghost sne = nonempty_idxs(lv);
    let ghost shl = header_like_idxs(lv);

    if ne.len() == 0 {
        return Err(ProcessError::EmptyFile);
    }
    let header_idx = ne[0];
    if hl.len() == 0 || hl[0] != header_idx {
        return Err(ProcessError::FirstLineNotHeader);
    }
    let last_idx = ne[ne.len() - 1];
    proof {
        assert(sne.last() == ne@.map_values(|x: usize| x as int).last());
    }
    let last_norm = normalize_for_compare(lines[last_idx].as_str());
    let last_is_parent = str_has_prefix(last_norm.as_str(), ",,");
    if hl.len() == 1 {
        if last_is_parent {
            return Err(ProcessError::MissingRepeatedHeader);
        }
        let header_line = lines[header_idx].clone();
        return Ok((header_line, None));
    }
    if hl.len() == 2 {
        if ne.len() < 2 {
            return Err(ProcessError::ContentTooShort);
        }
        let penultimate_idx = ne[ne.len() - 2];
        let second_header_idx = hl[1];
        if second_header_idx != penultimate_idx {
            return Err(ProcessError::RepeatedHeaderMisplaced);
        }
        if !last_is_parent {
            return Err(ProcessError::LastLineNotParentTitle);
        }
        let header_line = lines[header_idx].clone();
        let parent_line = lines[last_idx].clone();
        return Ok((
            header_line,
            Some(
                TailGroupMeta {
                    repeated_header_idx: second_header_idx,
                    parent_line_idx: last_idx,
                    parent_line,
                },
            ),
        ));
    }
    Err(ProcessError::TooManyHeaderLines)
}

} // verus!

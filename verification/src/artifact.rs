//! The persisted index: writing it, reading it, and querying what is
//! persisted.

use vstd::prelude::*;
use crate::error::DecodeError;
use crate::format::{
    decoded, pair_reader, parse_pair, parse_pairs, parse_partner, parse_partners, parse_row,
    partner_reader, render_index, render_pair, render_pairs, render_partner, render_partners,
    render_row, row_reader, show_pair, show_partner, show_row,
};
use crate::index::{
    holds, lookup_pairs, partners_model, rows_model, MatchIndex, Partner, PartnerModel, Row,
    RowModel,
};
use crate::json_list::{joined, parse_items, parse_list};
use crate::json_text::{
    chars_of, read_number, read_string, skip_spaces_in, write_number, write_string,
};

verus! {

// ------------------------------------------------------------------- writing

/// Writes a pair of positions at the end of `out`.
fn write_pair(out: &mut String, p: (usize, usize))
    ensures
        final(out)@ == old(out)@ + render_pair(p),
{
    out.push('[');
    write_number(out, p.0);
    out.push(',');
    write_number(out, p.1);
    out.push(']');
}

/// Writes a list of pairs at the end of `out`.
fn write_pairs(out: &mut String, pairs: &Vec<(usize, usize)>)
    ensures
        final(out)@ == old(out)@ + render_pairs(pairs@),
{
    let ghost start = out@;
    out.push('[');
    let mut k: usize = 0;
    while k < pairs.len()
        invariant
            k <= pairs.len(),
            out@ == start + seq!['['] + joined(pairs@.take(k as int), show_pair()),
        decreases pairs.len() - k,
    {
        if k > 0 {
            out.push(',');
        }
        write_pair(out, pairs[k]);
        proof {
            assert(pairs@.take(k + 1).drop_last() =~= pairs@.take(k as int));
        }
        k += 1;
    }
    out.push(']');
    proof {
        assert(pairs@.take(k as int) =~= pairs@);
    }
}

/// Writes an inner entry at the end of `out`.
fn write_partner(out: &mut String, x: &Partner)
    ensures
        final(out)@ == old(out)@ + render_partner(x@),
{
    write_string(out, x.id.as_str());
    out.push(':');
    write_pairs(out, &x.pairs);
}

/// Writes the inner entries of a row at the end of `out`.
fn write_partners(out: &mut String, partners: &Vec<Partner>)
    ensures
        final(out)@ == old(out)@ + render_partners(partners_model(partners@)),
{
    let ghost start = out@;
    let ghost xs = partners_model(partners@);
    out.push('{');
    let mut k: usize = 0;
    while k < partners.len()
        invariant
            k <= partners.len(),
            xs == partners_model(partners@),
            out@ == start + seq!['{'] + joined(xs.take(k as int), show_partner()),
        decreases partners.len() - k,
    {
        if k > 0 {
            out.push(',');
        }
        write_partner(out, &partners[k]);
        proof {
            assert(xs.take(k + 1).drop_last() =~= xs.take(k as int));
        }
        k += 1;
    }
    out.push('}');
    proof {
        assert(xs.take(k as int) =~= xs);
    }
}

/// Writes a row at the end of `out`.
fn write_row(out: &mut String, x: &Row)
    ensures
        final(out)@ == old(out)@ + render_row(x@),
{
    write_string(out, x.id.as_str());
    out.push(':');
    write_partners(out, &x.partners);
}

/// The text under which the index is persisted: compact JSON, the rows
/// and their entries in the order of the index.
pub fn encode(index: &MatchIndex) -> (text: String)
    ensures
        text@ == render_index(index@),
{
    let rows = index.rows();
    let ghost xs = rows_model(rows@);
    let mut out = String::new();
    out.push('{');
    let mut k: usize = 0;
    while k < rows.len()
        invariant
            k <= rows.len(),
            xs == rows_model(rows@),
            out@ == seq!['{'] + joined(xs.take(k as int), show_row()),
        decreases rows.len() - k,
    {
        if k > 0 {
            out.push(',');
        }
        write_row(&mut out, &rows[k]);
        proof {
            assert(xs.take(k + 1).drop_last() =~= xs.take(k as int));
        }
        k += 1;
    }
    out.push('}');
    proof {
        assert(xs.take(k as int) =~= xs);
    }
    out
}

// ------------------------------------------------------------------- reading

/// Reads the pair of positions at `p`.
fn read_pair(s: &Vec<char>, p: usize) -> (r: Option<((usize, usize), usize)>)
    requires
        p <= s.len(),
    ensures
        match r {
            Some((x, end)) => parse_pair(s@, p as int) == Some((x, end as int)) && p < end
                <= s.len(),
            None => parse_pair(s@, p as int) is None,
        },
{
    if p >= s.len() || s[p] != '[' {
        return None;
    }
    let (first, end_first) = match read_number(s, skip_spaces_in(s, p + 1)) {
        Some(v) => v,
        None => {
            return None;
        },
    };
    let comma = skip_spaces_in(s, end_first);
    if comma >= s.len() || s[comma] != ',' {
        return None;
    }
    let (second, end_second) = match read_number(s, skip_spaces_in(s, comma + 1)) {
        Some(v) => v,
        None => {
            return None;
        },
    };
    let close = skip_spaces_in(s, end_second);
    if close >= s.len() || s[close] != ']' {
        return None;
    }
    Some(((first, second), close + 1))
}

/// Reads the list of pairs at `p`.
fn read_pairs(s: &Vec<char>, p: usize) -> (r: Option<(Vec<(usize, usize)>, usize)>)
    requires
        p <= s.len(),
    ensures
        match r {
            Some((xs, end)) => parse_pairs(s@, p as int) == Some((xs@, end as int)) && p < end
                <= s.len(),
            None => parse_pairs(s@, p as int) is None,
        },
{
    if p >= s.len() || s[p] != '[' {
        return None;
    }
    let mut out: Vec<(usize, usize)> = Vec::new();
    let mut q: usize = skip_spaces_in(s, p + 1);
    if q < s.len() && s[q] == ']' {
        return Some((out, q + 1));
    }
    loop
        invariant
            p < q <= s.len(),
            parse_pairs(s@, p as int) == parse_items(s@, q as int, ']', pair_reader(), out@),
        decreases s.len() - q,
    {
        let (x, end) = match read_pair(s, q) {
            Some(v) => v,
            None => {
                return None;
            },
        };
        out.push(x);
        let after = skip_spaces_in(s, end);
        if after < s.len() && s[after] == ']' {
            return Some((out, after + 1));
        }
        if after < s.len() && s[after] == ',' {
            q = skip_spaces_in(s, after + 1);
        } else {
            return None;
        }
    }
}

/// Reads the inner entry at `p`.
fn read_partner(s: &Vec<char>, p: usize) -> (r: Option<(Partner, usize)>)
    requires
        p <= s.len(),
    ensures
        match r {
            Some((x, end)) => parse_partner(s@, p as int) == Some((x@, end as int)) && p < end
                <= s.len(),
            None => parse_partner(s@, p as int) is None,
        },
{
    let (id, end_id) = match read_string(s, p) {
        Some(v) => v,
        None => {
            return None;
        },
    };
    let colon = skip_spaces_in(s, end_id);
    if colon >= s.len() || s[colon] != ':' {
        return None;
    }
    let (pairs, end) = match read_pairs(s, skip_spaces_in(s, colon + 1)) {
        Some(v) => v,
        None => {
            return None;
        },
    };
    Some((Partner { id, pairs }, end))
}

/// Reads the object of inner entries at `p`.
fn read_partners(s: &Vec<char>, p: usize) -> (r: Option<(Vec<Partner>, usize)>)
    requires
        p <= s.len(),
    ensures
        match r {
            Some((xs, end)) => parse_partners(s@, p as int) == Some(
                (partners_model(xs@), end as int),
            ) && p < end <= s.len(),
            None => parse_partners(s@, p as int) is None,
        },
{
    if p >= s.len() || s[p] != '{' {
        return None;
    }
    let mut out: Vec<Partner> = Vec::new();
    let mut q: usize = skip_spaces_in(s, p + 1);
    if q < s.len() && s[q] == '}' {
        return Some((out, q + 1));
    }
    assert(partners_model(out@) =~= Seq::<PartnerModel>::empty());
    loop
        invariant
            p < q <= s.len(),
            parse_partners(s@, p as int) == parse_items(
                s@,
                q as int,
                '}',
                partner_reader(),
                partners_model(out@),
            ),
        decreases s.len() - q,
    {
        let (x, end) = match read_partner(s, q) {
            Some(v) => v,
            None => {
                return None;
            },
        };
        let ghost before = partners_model(out@);
        let ghost added = x@;
        out.push(x);
        assert(partners_model(out@) =~= before.push(added));
        let after = skip_spaces_in(s, end);
        if after < s.len() && s[after] == '}' {
            return Some((out, after + 1));
        }
        if after < s.len() && s[after] == ',' {
            q = skip_spaces_in(s, after + 1);
        } else {
            return None;
        }
    }
}

/// Reads the row at `p`.
fn read_row(s: &Vec<char>, p: usize) -> (r: Option<(Row, usize)>)
    requires
        p <= s.len(),
    ensures
        match r {
            Some((x, end)) => parse_row(s@, p as int) == Some((x@, end as int)) && p < end
                <= s.len(),
            None => parse_row(s@, p as int) is None,
        },
{
    let (id, end_id) = match read_string(s, p) {
        Some(v) => v,
        None => {
            return None;
        },
    };
    let colon = skip_spaces_in(s, end_id);
    if colon >= s.len() || s[colon] != ':' {
        return None;
    }
    let (partners, end) = match read_partners(s, skip_spaces_in(s, colon + 1)) {
        Some(v) => v,
        None => {
            return None;
        },
    };
    Some((Row { id, partners }, end))
}

/// Reads the object of rows at `p`.
fn read_rows(s: &Vec<char>, p: usize) -> (r: Option<(Vec<Row>, usize)>)
    requires
        p <= s.len(),
    ensures
        match r {
            Some((xs, end)) => parse_list(s@, p as int, '{', '}', row_reader()) == Some(
                (rows_model(xs@), end as int),
            ) && p < end <= s.len(),
            None => parse_list(s@, p as int, '{', '}', row_reader()) is None,
        },
{
    if p >= s.len() || s[p] != '{' {
        return None;
    }
    let mut out: Vec<Row> = Vec::new();
    let mut q: usize = skip_spaces_in(s, p + 1);
    if q < s.len() && s[q] == '}' {
        return Some((out, q + 1));
    }
    assert(rows_model(out@) =~= Seq::<RowModel>::empty());
    loop
        invariant
            p < q <= s.len(),
            parse_list(s@, p as int, '{', '}', row_reader()) == parse_items(
                s@,
                q as int,
                '}',
                row_reader(),
                rows_model(out@),
            ),
        decreases s.len() - q,
    {
        let (x, end) = match read_row(s, q) {
            Some(v) => v,
            None => {
                return None;
            },
        };
        let ghost before = rows_model(out@);
        let ghost added = x@;
        out.push(x);
        assert(rows_model(out@) =~= before.push(added));
        let after = skip_spaces_in(s, end);
        if after < s.len() && s[after] == '}' {
            return Some((out, after + 1));
        }
        if after < s.len() && s[after] == ',' {
            q = skip_spaces_in(s, after + 1);
        } else {
            return None;
        }
    }
}

/// Reads a persisted index. `Syntax` where the text is not an index in
/// JSON, `Inconsistent` where it is one that breaks the invariant: a key
/// twice, a track paired with itself, or two tracks in both directions.
pub fn decode(text: &str) -> (r: Result<MatchIndex, DecodeError>)
    ensures
        match r {
            Ok(index) => index.wf() && decoded(text@) == Ok::<Seq<RowModel>, DecodeError>(index@),
            Err(e) => decoded(text@) == Err::<Seq<RowModel>, DecodeError>(e),
        },
{
    let s = chars_of(text);
    let start = skip_spaces_in(&s, 0);
    let (rows, end) = match read_rows(&s, start) {
        Some(v) => v,
        None => {
            return Err(DecodeError::Syntax);
        },
    };
    if skip_spaces_in(&s, end) != s.len() {
        return Err(DecodeError::Syntax);
    }
    match MatchIndex::from_rows(rows) {
        Some(index) => Ok(index),
        None => Err(DecodeError::Inconsistent),
    }
}

/// Whether there was an index to read.
#[derive(Clone, Copy, Debug, PartialEq, Eq, Structural)]
pub enum LoadStatus {
    /// The index was read from what was persisted.
    Loaded,
    /// Nothing is persisted yet: the index has not been built.
    NotBuilt,
}

/// Whether an index is persisted: whether anything stands at its place.
pub fn check_if_file_exists(artifact: Option<&str>) -> (r: bool)
    ensures
        r == artifact is Some,
{
    artifact.is_some()
}

/// The index that is persisted, given what stands at its place: its text,
/// or nothing. Where nothing is persisted the index is empty, and the
/// status says that it has yet to be built; this is no failure.
pub fn read_from_file(artifact: Option<&str>) -> (r: Result<(MatchIndex, LoadStatus), DecodeError>)
    ensures
        match artifact {
            None => r matches Ok((index, status)) && index.wf() && index@ == Seq::<
                RowModel,
            >::empty() && status == LoadStatus::NotBuilt,
            Some(text) => match r {
                Ok((index, status)) => index.wf() && status == LoadStatus::Loaded && decoded(text@)
                    == Ok::<Seq<RowModel>, DecodeError>(index@),
                Err(e) => decoded(text@) == Err::<Seq<RowModel>, DecodeError>(e),
            },
        },
{
    if !check_if_file_exists(artifact) {
        return Ok((MatchIndex::new(), LoadStatus::NotBuilt));
    }
    match decode(artifact.unwrap()) {
        Ok(index) => Ok((index, LoadStatus::Loaded)),
        Err(e) => Err(e),
    }
}

/// What a query of the persisted index answers, as a mathematical value:
/// nothing, and that the index is not built, where nothing is persisted;
/// else what the index that the text holds answers.
pub open spec fn answered(artifact: Option<Seq<char>>, a: Seq<char>, b: Seq<char>) -> Result<
    (Seq<(usize, usize)>, LoadStatus),
    DecodeError,
> {
    match artifact {
        None => Ok((Seq::empty(), LoadStatus::NotBuilt)),
        Some(text) => match decoded(text) {
            Ok(m) => Ok((lookup_pairs(m, a, b), LoadStatus::Loaded)),
            Err(e) => Err(e),
        },
    }
}

/// The characters of a text that may be missing.
pub open spec fn artifact_model(artifact: Option<&str>) -> Option<Seq<char>> {
    match artifact {
        Some(text) => Some(text@),
        None => None,
    }
}

/// The positions at which the two named tracks meet, as the persisted
/// index has them, given what stands at the place of the index: its text,
/// or nothing. The first component of each pair is a position in
/// `file_1`, the second a position in `file_2`, whichever of the two owns
/// the row. Where nothing is persisted the answer is empty and the status
/// says that the index has yet to be built.
pub fn find_common_coords_indexes(artifact: Option<&str>, file_1: &str, file_2: &str) -> (r: Result<
    (Vec<(usize, usize)>, LoadStatus),
    DecodeError,
>)
    ensures
        match r {
            Ok((pairs, status)) => answered(artifact_model(artifact), file_1@, file_2@) == Ok::<
                (Seq<(usize, usize)>, LoadStatus),
                DecodeError,
            >((pairs@, status)),
            Err(e) => answered(artifact_model(artifact), file_1@, file_2@) == Err::<
                (Seq<(usize, usize)>, LoadStatus),
                DecodeError,
            >(e),
        },
{
    match read_from_file(artifact) {
        Ok((file_coords_map, status)) => {
            Ok((file_coords_map.lookup(file_1, file_2), status))
        },
        Err(e) => Err(e),
    }
}

} // verus!

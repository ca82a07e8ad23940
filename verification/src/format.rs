//! The persisted index as text: a JSON object whose keys are tracks and
//! whose values are objects, keyed by the other track, of lists of
//! two-element lists of positions. How an index is written, how a text is
//! read, and that what was written is read back.

use vstd::prelude::*;
use crate::error::DecodeError;
use crate::index::{lookup_pairs, model_wf, PartnerModel, RowModel};
use crate::json_list::{lemma_parse_list, listed, parse_list, reads_back, starts_item};
use crate::json_text::{
    decimal, has_at, has_char, lemma_decimal, lemma_has_at_index, lemma_has_at_split,
    lemma_parse_decimal, lemma_parse_quoted, parse_number, parse_string, quoted, skip_spaces,
};

verus! {

// ------------------------------------------------------------ how it is written

/// A pair of positions as it is written: `[i,j]`.
pub open spec fn render_pair(p: (usize, usize)) -> Seq<char> {
    seq!['['] + decimal(p.0 as nat) + seq![','] + decimal(p.1 as nat) + seq![']']
}

/// `render_pair` as a value.
pub open spec fn show_pair() -> spec_fn((usize, usize)) -> Seq<char> {
    |p: (usize, usize)| render_pair(p)
}

/// A list of pairs as it is written: `[[i,j],[k,l]]`.
pub open spec fn render_pairs(pairs: Seq<(usize, usize)>) -> Seq<char> {
    listed(pairs, '[', ']', show_pair())
}

/// An inner entry as it is written: `"track":[[i,j]]`.
pub open spec fn render_partner(x: PartnerModel) -> Seq<char> {
    quoted(x.id) + seq![':'] + render_pairs(x.pairs)
}

/// `render_partner` as a value.
pub open spec fn show_partner() -> spec_fn(PartnerModel) -> Seq<char> {
    |x: PartnerModel| render_partner(x)
}

/// The inner entries of a row as they are written: an object.
pub open spec fn render_partners(partners: Seq<PartnerModel>) -> Seq<char> {
    listed(partners, '{', '}', show_partner())
}

/// A row as it is written: `"track":{..}`.
pub open spec fn render_row(x: RowModel) -> Seq<char> {
    quoted(x.id) + seq![':'] + render_partners(x.partners)
}

/// `render_row` as a value.
pub open spec fn show_row() -> spec_fn(RowModel) -> Seq<char> {
    |x: RowModel| render_row(x)
}

/// The index as it is written: an object of rows, with no white space.
pub open spec fn render_index(m: Seq<RowModel>) -> Seq<char> {
    listed(m, '{', '}', show_row())
}

// --------------------------------------------------------------- how it is read

/// The pair of positions that stands at `p`, and where it ends.
pub open spec fn parse_pair(s: Seq<char>, p: int) -> Option<((usize, usize), int)> {
    if !has_char(s, p, '[') {
        None
    } else {
        match parse_number(s, skip_spaces(s, p + 1)) {
            None => None,
            Some((first, end_first)) => {
                let comma = skip_spaces(s, end_first);
                if !has_char(s, comma, ',') {
                    None
                } else {
                    match parse_number(s, skip_spaces(s, comma + 1)) {
                        None => None,
                        Some((second, end_second)) => {
                            let close = skip_spaces(s, end_second);
                            if has_char(s, close, ']') {
                                Some(((first, second), close + 1))
                            } else {
                                None
                            }
                        },
                    }
                }
            },
        }
    }
}

/// `parse_pair` as a value.
pub open spec fn pair_reader() -> spec_fn(Seq<char>, int) -> Option<((usize, usize), int)> {
    |s: Seq<char>, p: int| parse_pair(s, p)
}

/// The list of pairs that stands at `p`, and where it ends.
pub open spec fn parse_pairs(s: Seq<char>, p: int) -> Option<(Seq<(usize, usize)>, int)> {
    parse_list(s, p, '[', ']', pair_reader())
}

/// The inner entry that stands at `p`, and where it ends.
pub open spec fn parse_partner(s: Seq<char>, p: int) -> Option<(PartnerModel, int)> {
    match parse_string(s, p) {
        None => None,
        Some((id, end_id)) => {
            let colon = skip_spaces(s, end_id);
            if !has_char(s, colon, ':') {
                None
            } else {
                match parse_pairs(s, skip_spaces(s, colon + 1)) {
                    None => None,
                    Some((pairs, end)) => Some((PartnerModel { id, pairs }, end)),
                }
            }
        },
    }
}

/// `parse_partner` as a value.
pub open spec fn partner_reader() -> spec_fn(Seq<char>, int) -> Option<(PartnerModel, int)> {
    |s: Seq<char>, p: int| parse_partner(s, p)
}

/// The object of inner entries that stands at `p`, and where it ends.
pub open spec fn parse_partners(s: Seq<char>, p: int) -> Option<(Seq<PartnerModel>, int)> {
    parse_list(s, p, '{', '}', partner_reader())
}

/// The row that stands at `p`, and where it ends.
pub open spec fn parse_row(s: Seq<char>, p: int) -> Option<(RowModel, int)> {
    match parse_string(s, p) {
        None => None,
        Some((id, end_id)) => {
            let colon = skip_spaces(s, end_id);
            if !has_char(s, colon, ':') {
                None
            } else {
                match parse_partners(s, skip_spaces(s, colon + 1)) {
                    None => None,
                    Some((partners, end)) => Some((RowModel { id, partners }, end)),
                }
            }
        },
    }
}

/// `parse_row` as a value.
pub open spec fn row_reader() -> spec_fn(Seq<char>, int) -> Option<(RowModel, int)> {
    |s: Seq<char>, p: int| parse_row(s, p)
}

/// The rows that a text holds, if it is an object of rows with nothing but
/// white space around it.
pub open spec fn parse_index(s: Seq<char>) -> Option<Seq<RowModel>> {
    match parse_list(s, skip_spaces(s, 0), '{', '}', row_reader()) {
        None => None,
        Some((rows, end)) => {
            if skip_spaces(s, end) == s.len() {
                Some(rows)
            } else {
                None
            }
        },
    }
}

/// What a text is read as.
pub open spec fn decoded(s: Seq<char>) -> Result<Seq<RowModel>, DecodeError> {
    match parse_index(s) {
        None => Err(DecodeError::Syntax),
        Some(m) => {
            if model_wf(m) {
                Ok(m)
            } else {
                Err(DecodeError::Inconsistent)
            }
        },
    }
}

// ---------------------------------------------------- what was written is read back

/// A written pair is read back wherever it stands.
pub proof fn lemma_parse_pair(s: Seq<char>, p: int, x: (usize, usize))
    requires
        has_at(s, p, render_pair(x)),
    ensures
        parse_pair(s, p) == Some((x, p + render_pair(x).len())),
{
    let a = decimal(x.0 as nat);
    let b = decimal(x.1 as nat);
    lemma_decimal(x.0 as nat);
    lemma_decimal(x.1 as nat);
    lemma_has_at_split(s, p, seq!['['] + a + seq![','] + b, seq![']']);
    lemma_has_at_split(s, p, seq!['['] + a + seq![','], b);
    lemma_has_at_split(s, p, seq!['['] + a, seq![',']);
    lemma_has_at_split(s, p, seq!['['], a);
    lemma_has_at_index(s, p, seq!['['], 0);
    lemma_has_at_index(s, p + 1, a, 0);
    lemma_has_at_index(s, p + 1 + a.len(), seq![','], 0);
    lemma_has_at_index(s, p + 2 + a.len(), b, 0);
    lemma_has_at_index(s, p + 2 + a.len() + b.len(), seq![']'], 0);
    lemma_parse_decimal(s, p + 1, x.0);
    lemma_parse_decimal(s, p + 2 + a.len(), x.1);
}

/// A written list of pairs is read back wherever it stands.
pub proof fn lemma_parse_pairs(s: Seq<char>, p: int, xs: Seq<(usize, usize)>)
    requires
        has_at(s, p, render_pairs(xs)),
    ensures
        parse_pairs(s, p) == Some((xs, p + render_pairs(xs).len())),
        render_pairs(xs).len() >= 2,
        render_pairs(xs)[0] == '[',
{
    assert forall|i: int| 0 <= i < xs.len() implies reads_back(
        show_pair(),
        pair_reader(),
        #[trigger] xs[i],
    ) && starts_item(show_pair(), ']', xs[i]) by {
        let x = xs[i];
        assert forall|t: Seq<char>, q: int| has_at(t, q, show_pair()(x)) implies
            #[trigger] pair_reader()(t, q) == Some((x, q + show_pair()(x).len())) by {
            lemma_parse_pair(t, q, x);
        }
    }
    lemma_parse_list(s, p, '[', ']', show_pair(), pair_reader(), xs);
}

/// A written inner entry is read back wherever it stands.
pub proof fn lemma_parse_partner(s: Seq<char>, p: int, x: PartnerModel)
    requires
        has_at(s, p, render_partner(x)),
    ensures
        parse_partner(s, p) == Some((x, p + render_partner(x).len())),
{
    let key = quoted(x.id);
    let value = render_pairs(x.pairs);
    lemma_has_at_split(s, p, key + seq![':'], value);
    lemma_has_at_split(s, p, key, seq![':']);
    lemma_parse_quoted(s, p, x.id);
    lemma_has_at_index(s, p + key.len(), seq![':'], 0);
    lemma_parse_pairs(s, p + key.len() + 1, x.pairs);
    lemma_has_at_index(s, p + key.len() + 1, value, 0);
}

/// Written inner entries are read back wherever they stand.
pub proof fn lemma_parse_partners(s: Seq<char>, p: int, xs: Seq<PartnerModel>)
    requires
        has_at(s, p, render_partners(xs)),
    ensures
        parse_partners(s, p) == Some((xs, p + render_partners(xs).len())),
        render_partners(xs).len() >= 2,
        render_partners(xs)[0] == '{',
{
    assert forall|i: int| 0 <= i < xs.len() implies reads_back(
        show_partner(),
        partner_reader(),
        #[trigger] xs[i],
    ) && starts_item(show_partner(), '}', xs[i]) by {
        let x = xs[i];
        assert forall|t: Seq<char>, q: int| has_at(t, q, show_partner()(x)) implies
            #[trigger] partner_reader()(t, q) == Some((x, q + show_partner()(x).len())) by {
            lemma_parse_partner(t, q, x);
        }
    }
    lemma_parse_list(s, p, '{', '}', show_partner(), partner_reader(), xs);
}

/// A written row is read back wherever it stands.
pub proof fn lemma_parse_row(s: Seq<char>, p: int, x: RowModel)
    requires
        has_at(s, p, render_row(x)),
    ensures
        parse_row(s, p) == Some((x, p + render_row(x).len())),
{
    let key = quoted(x.id);
    let value = render_partners(x.partners);
    lemma_has_at_split(s, p, key + seq![':'], value);
    lemma_has_at_split(s, p, key, seq![':']);
    lemma_parse_quoted(s, p, x.id);
    lemma_has_at_index(s, p + key.len(), seq![':'], 0);
    lemma_parse_partners(s, p + key.len() + 1, x.partners);
    lemma_has_at_index(s, p + key.len() + 1, value, 0);
}

/// Reading what was written for an index gives the index back: the same
/// rows and entries in the same order, with the same pairs.
pub proof fn lemma_round_trip(m: Seq<RowModel>)
    ensures
        parse_index(render_index(m)) == Some(m),
        model_wf(m) ==> decoded(render_index(m)) == Ok::<Seq<RowModel>, DecodeError>(m),
{
    let s = render_index(m);
    assert(s.subrange(0, s.len() as int) =~= s);
    assert forall|i: int| 0 <= i < m.len() implies reads_back(
        show_row(),
        row_reader(),
        #[trigger] m[i],
    ) && starts_item(show_row(), '}', m[i]) by {
        let x = m[i];
        assert forall|t: Seq<char>, q: int| has_at(t, q, show_row()(x)) implies
            #[trigger] row_reader()(t, q) == Some((x, q + show_row()(x).len())) by {
            lemma_parse_row(t, q, x);
        }
    }
    lemma_parse_list(s, 0, '{', '}', show_row(), row_reader(), m);
}

/// An index that was saved and read again answers every query as before,
/// for tracks that it stores and for tracks that it does not.
pub proof fn lemma_saved_index_answers_the_same(m: Seq<RowModel>, a: Seq<char>, b: Seq<char>)
    requires
        model_wf(m),
    ensures
        decoded(render_index(m)) matches Ok(n) && lookup_pairs(n, a, b) == lookup_pairs(m, a, b),
{
    lemma_round_trip(m);
}

} // verus!

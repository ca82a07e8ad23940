//! Lists in JSON text: items between an opening and a closing character,
//! with commas between them.

use vstd::prelude::*;
use crate::json_text::{
    has_at, has_char, is_space, lemma_has_at_index, lemma_has_at_inside, lemma_has_at_split,
    skip_spaces,
};

verus! {

/// The items as they are written, with a comma between each two.
pub open spec fn joined<T>(xs: Seq<T>, show: spec_fn(T) -> Seq<char>) -> Seq<char>
    decreases xs.len(),
{
    if xs.len() == 0 {
        Seq::empty()
    } else if xs.len() == 1 {
        show(xs[0])
    } else {
        joined(xs.drop_last(), show) + seq![','] + show(xs.last())
    }
}

/// A list as it is written.
pub open spec fn listed<T>(xs: Seq<T>, open: char, close: char, show: spec_fn(T) -> Seq<char>) -> Seq<
    char,
> {
    seq![open] + joined(xs, show) + seq![close]
}

/// The items from `p` on, behind the items `acc`, up to the closing
/// character, and where the list ends. White space may stand around the
/// commas and before the closing character.
pub open spec fn parse_items<T>(
    s: Seq<char>,
    p: int,
    close: char,
    item: spec_fn(Seq<char>, int) -> Option<(T, int)>,
    acc: Seq<T>,
) -> Option<(Seq<T>, int)>
    decreases s.len() - p,
{
    match item(s, p) {
        None => None,
        Some((x, end)) => {
            let q = skip_spaces(s, end);
            if has_char(s, q, close) {
                Some((acc.push(x), q + 1))
            } else if has_char(s, q, ',') {
                let next = skip_spaces(s, q + 1);
                if p < next <= s.len() {
                    parse_items(s, next, close, item, acc.push(x))
                } else {
                    None
                }
            } else {
                None
            }
        },
    }
}

/// The list that stands at `p`, and where it ends.
pub open spec fn parse_list<T>(
    s: Seq<char>,
    p: int,
    open: char,
    close: char,
    item: spec_fn(Seq<char>, int) -> Option<(T, int)>,
) -> Option<(Seq<T>, int)> {
    if !has_char(s, p, open) {
        None
    } else {
        let q = skip_spaces(s, p + 1);
        if has_char(s, q, close) {
            Some((Seq::empty(), q + 1))
        } else {
            parse_items(s, q, close, item, Seq::empty())
        }
    }
}

/// Wherever `x` stands as `show` writes it, `item` reads it back.
pub open spec fn reads_back<T>(
    show: spec_fn(T) -> Seq<char>,
    item: spec_fn(Seq<char>, int) -> Option<(T, int)>,
    x: T,
) -> bool {
    forall|s: Seq<char>, q: int|
        has_at(s, q, show(x)) ==> #[trigger] item(s, q) == Some((x, q + show(x).len()))
}

/// What is written for `x` starts with a character that is no white
/// space and does not close the list.
pub open spec fn starts_item<T>(show: spec_fn(T) -> Seq<char>, close: char, x: T) -> bool {
    show(x).len() > 0 && !is_space(show(x)[0]) && show(x)[0] != close
}

/// Where item `k` of a written list begins, counted from the first item.
pub open spec fn item_offset<T>(xs: Seq<T>, show: spec_fn(T) -> Seq<char>, k: int) -> int {
    if k == 0 {
        0
    } else {
        (joined(xs.take(k), show).len() + 1) as int
    }
}

/// The first items are written as the list begins, and a comma follows
/// them unless they are all.
proof fn lemma_joined_prefix<T>(xs: Seq<T>, show: spec_fn(T) -> Seq<char>, k: int)
    requires
        1 <= k <= xs.len(),
    ensures
        has_at(joined(xs, show), 0, joined(xs.take(k), show)),
        k < xs.len() ==> has_char(joined(xs, show), joined(xs.take(k), show).len() as int, ','),
    decreases xs.len(),
{
    let whole = joined(xs, show);
    assert(whole.subrange(0, whole.len() as int) =~= whole);
    if k == xs.len() {
        assert(xs.take(k) =~= xs);
    } else {
        let front = joined(xs.drop_last(), show);
        assert(xs.drop_last().take(k) =~= xs.take(k));
        lemma_joined_prefix(xs.drop_last(), show, k);
        lemma_has_at_split(whole, 0, front + seq![','], show(xs.last()));
        lemma_has_at_split(whole, 0, front, seq![',']);
        lemma_has_at_inside(whole, 0, front, 0, joined(xs.take(k), show));
        if k == xs.len() - 1 {
            lemma_has_at_index(whole, front.len() as int, seq![','], 0);
        } else {
            lemma_has_at_index(whole, 0, front, joined(xs.take(k), show).len() as int);
        }
    }
}

/// Item `k` of a written list stands at its offset, and behind it a
/// comma, or the closing character if it is the last.
proof fn lemma_item_place<T>(
    s: Seq<char>,
    start: int,
    close: char,
    show: spec_fn(T) -> Seq<char>,
    xs: Seq<T>,
    k: int,
)
    requires
        has_at(s, start, joined(xs, show) + seq![close]),
        0 <= k < xs.len(),
    ensures
        has_at(s, start + item_offset(xs, show, k), show(xs[k])),
        item_offset(xs, show, k) + show(xs[k]).len() == joined(xs.take(k + 1), show).len(),
        has_char(
            s,
            start + joined(xs.take(k + 1), show).len(),
            if k + 1 < xs.len() {
                ','
            } else {
                close
            },
        ),
{
    let whole = joined(xs, show);
    let upto = joined(xs.take(k + 1), show);
    lemma_has_at_split(s, start, whole, seq![close]);
    lemma_joined_prefix(xs, show, k + 1);
    lemma_has_at_inside(s, start, whole, 0, upto);
    if k > 0 {
        assert(xs.take(k + 1).drop_last() =~= xs.take(k));
        lemma_has_at_split(s, start, joined(xs.take(k), show) + seq![','], show(xs[k]));
    }
    if k + 1 < xs.len() {
        lemma_has_at_index(s, start, whole, upto.len() as int);
    } else {
        lemma_has_at_index(s, start + whole.len(), seq![close], 0);
    }
}

/// Reading a written list from its item `k` on, behind the items before
/// it, gives the whole list.
proof fn lemma_parse_items<T>(
    s: Seq<char>,
    start: int,
    close: char,
    show: spec_fn(T) -> Seq<char>,
    item: spec_fn(Seq<char>, int) -> Option<(T, int)>,
    xs: Seq<T>,
    k: int,
)
    requires
        has_at(s, start, joined(xs, show) + seq![close]),
        0 <= k < xs.len(),
        close != ',',
        !is_space(close),
        forall|i: int|
            0 <= i < xs.len() ==> reads_back(show, item, #[trigger] xs[i]) && starts_item(
                show,
                close,
                xs[i],
            ),
    ensures
        parse_items(s, start + item_offset(xs, show, k), close, item, xs.take(k)) == Some(
            (xs, start + joined(xs, show).len() + 1),
        ),
    decreases xs.len() - k,
{
    let end = start + joined(xs.take(k + 1), show).len();
    lemma_item_place(s, start, close, show, xs, k);
    assert(xs.take(k).push(xs[k]) =~= xs.take(k + 1));
    if k + 1 < xs.len() {
        lemma_item_place(s, start, close, show, xs, k + 1);
        lemma_has_at_index(s, end + 1, show(xs[k + 1]), 0);
        lemma_parse_items(s, start, close, show, item, xs, k + 1);
    }
}

/// A list that was written is read back as it was, if each of its items
/// is.
pub proof fn lemma_parse_list<T>(
    s: Seq<char>,
    p: int,
    open: char,
    close: char,
    show: spec_fn(T) -> Seq<char>,
    item: spec_fn(Seq<char>, int) -> Option<(T, int)>,
    xs: Seq<T>,
)
    requires
        has_at(s, p, listed(xs, open, close, show)),
        close != ',',
        !is_space(close),
        forall|i: int|
            0 <= i < xs.len() ==> reads_back(show, item, #[trigger] xs[i]) && starts_item(
                show,
                close,
                xs[i],
            ),
    ensures
        parse_list(s, p, open, close, item) == Some((xs, p + listed(xs, open, close, show).len())),
{
    let body = joined(xs, show);
    lemma_has_at_split(s, p, seq![open] + body, seq![close]);
    lemma_has_at_split(s, p, seq![open], body);
    lemma_has_at_split(s, p + 1, body, seq![close]);
    lemma_has_at_index(s, p, seq![open], 0);
    if xs.len() == 0 {
        lemma_has_at_index(s, p + 1, seq![close], 0);
    } else {
        lemma_item_place(s, p + 1, close, show, xs, 0);
        lemma_has_at_index(s, p + 1, show(xs[0]), 0);
        assert(xs.take(0) =~= Seq::<T>::empty());
        lemma_parse_items(s, p + 1, close, show, item, xs, 0);
    }
}

} // verus!

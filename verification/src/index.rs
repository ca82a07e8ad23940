//! The match index: for pairs of tracks, the positions at which they meet.

use vstd::prelude::*;
use crate::matcher::flip_pairs;

verus! {

/// What the index keeps under one inner key: the other track and the
/// matching positions, as a mathematical value.
pub struct PartnerModel {
    pub id: Seq<char>,
    pub pairs: Seq<(usize, usize)>,
}

/// What the index keeps under one outer key, as a mathematical value.
pub struct RowModel {
    pub id: Seq<char>,
    pub partners: Seq<PartnerModel>,
}

/// The matches of one track with one other track. The first component of
/// each pair is a position in the track that owns the row, the second a
/// position in the track named here.
#[derive(Debug, PartialEq, Eq)]
pub struct Partner {
    pub id: String,
    pub pairs: Vec<(usize, usize)>,
}

/// All that is stored under one track.
#[derive(Debug, PartialEq, Eq)]
pub struct Row {
    pub id: String,
    pub partners: Vec<Partner>,
}

impl View for Partner {
    type V = PartnerModel;

    open spec fn view(&self) -> PartnerModel {
        PartnerModel { id: self.id@, pairs: self.pairs@ }
    }
}

impl View for Row {
    type V = RowModel;

    open spec fn view(&self) -> RowModel {
        RowModel { id: self.id@, partners: partners_model(self.partners@) }
    }
}

/// The mathematical value of a list of inner entries.
pub open spec fn partners_model(partners: Seq<Partner>) -> Seq<PartnerModel> {
    partners.map_values(|p: Partner| p@)
}

/// The mathematical value of a list of rows.
pub open spec fn rows_model(rows: Seq<Row>) -> Seq<RowModel> {
    rows.map_values(|r: Row| r@)
}

/// Row `i` of `m` belongs to track `a`, and its entry `j` names track `b`.
pub open spec fn is_entry_at(m: Seq<RowModel>, a: Seq<char>, b: Seq<char>, i: int, j: int) -> bool {
    &&& 0 <= i < m.len()
    &&& 0 <= j < m[i].partners.len()
    &&& m[i].id == a
    &&& m[i].partners[j].id == b
}

/// The directed entry from `a` to `b` is stored.
pub open spec fn holds(m: Seq<RowModel>, a: Seq<char>, b: Seq<char>) -> bool {
    exists|i: int, j: int| is_entry_at(m, a, b, i, j)
}

/// The pairs stored under the directed entry from `a` to `b`.
pub open spec fn stored_pairs(m: Seq<RowModel>, a: Seq<char>, b: Seq<char>) -> Seq<(usize, usize)> {
    let (i, j) = choose|i: int, j: int| is_entry_at(m, a, b, i, j);
    m[i].partners[j].pairs
}

/// No two rows belong to one track.
pub open spec fn rows_distinct(m: Seq<RowModel>) -> bool {
    forall|i: int, k: int| 0 <= i < k < m.len() ==> #[trigger] m[i].id != #[trigger] m[k].id
}

/// No row names a track twice.
pub open spec fn partners_distinct(m: Seq<RowModel>) -> bool {
    forall|i: int, j: int, l: int|
        0 <= i < m.len() && 0 <= j < l < m[i].partners.len() ==> #[trigger] m[i].partners[j].id
            != #[trigger] m[i].partners[l].id
}

/// No row names the track that it belongs to.
pub open spec fn no_self_pair(m: Seq<RowModel>) -> bool {
    forall|i: int, j: int|
        0 <= i < m.len() && 0 <= j < m[i].partners.len() ==> #[trigger] m[i].partners[j].id
            != m[i].id
}

/// No two tracks are stored in both directions.
pub open spec fn one_direction(m: Seq<RowModel>) -> bool {
    forall|i: int, j: int, k: int, l: int|
        0 <= i < m.len() && 0 <= j < m[i].partners.len() && 0 <= k < m.len() && 0 <= l
            < m[k].partners.len() ==> !(#[trigger] m[i].partners[j].id == m[k].id
            && #[trigger] m[k].partners[l].id == m[i].id)
}

/// The invariant of the index: no outer key twice, no inner key twice under
/// one outer key, no track paired with itself, and no pair of tracks stored
/// in both directions.
pub open spec fn model_wf(m: Seq<RowModel>) -> bool {
    &&& rows_distinct(m)
    &&& partners_distinct(m)
    &&& no_self_pair(m)
    &&& one_direction(m)
}

/// What a query for `a` and `b` answers: the pairs stored for the two
/// tracks, in whichever direction they are stored, each pair with its first
/// component a position in `a` and its second a position in `b`; nothing
/// where the two tracks are stored in neither direction.
pub open spec fn lookup_pairs(m: Seq<RowModel>, a: Seq<char>, b: Seq<char>) -> Seq<(usize, usize)> {
    if holds(m, a, b) {
        stored_pairs(m, a, b)
    } else if holds(m, b, a) {
        flip_pairs(stored_pairs(m, b, a))
    } else {
        Seq::empty()
    }
}

/// In a well-formed index a directed entry stands at one place only.
pub proof fn lemma_entry_unique(m: Seq<RowModel>, a: Seq<char>, b: Seq<char>, i: int, j: int)
    requires
        model_wf(m),
        is_entry_at(m, a, b, i, j),
    ensures
        holds(m, a, b),
        stored_pairs(m, a, b) == m[i].partners[j].pairs,
        forall|i2: int, j2: int| is_entry_at(m, a, b, i2, j2) ==> i2 == i && j2 == j,
{}

/// No track is paired with itself, and no two tracks are stored in both
/// directions.
pub proof fn lemma_one_direction(m: Seq<RowModel>, a: Seq<char>, b: Seq<char>)
    requires
        model_wf(m),
        holds(m, a, b),
    ensures
        a != b,
        !holds(m, b, a),
{}

/// A query answers the same correspondences whichever track is named
/// first: the pairs of one order are the pairs of the other, each with its
/// components exchanged.
pub proof fn lemma_lookup_either_order(m: Seq<RowModel>, a: Seq<char>, b: Seq<char>)
    requires
        model_wf(m),
    ensures
        lookup_pairs(m, b, a) == flip_pairs(lookup_pairs(m, a, b)),
{
    if holds(m, a, b) {
        lemma_one_direction(m, a, b);
    } else if holds(m, b, a) {
        lemma_one_direction(m, b, a);
    }
}

/// An entry for `a` and `b` can be added: the two are different tracks and
/// are stored in neither direction.
pub open spec fn can_add(m: Seq<RowModel>, a: Seq<char>, b: Seq<char>) -> bool {
    a != b && !holds(m, a, b) && !holds(m, b, a)
}

/// Some row of `m` belongs to `a`.
pub open spec fn has_row(m: Seq<RowModel>, a: Seq<char>) -> bool {
    exists|i: int| 0 <= i < m.len() && #[trigger] m[i].id == a
}

/// The index with the directed entry from `a` to `b` added: at the end of
/// the row of `a`, or in a new last row where `a` has none.
pub open spec fn with_entry(
    m: Seq<RowModel>,
    a: Seq<char>,
    b: Seq<char>,
    pairs: Seq<(usize, usize)>,
) -> Seq<RowModel> {
    let entry = PartnerModel { id: b, pairs };
    if has_row(m, a) {
        let i = choose|i: int| 0 <= i < m.len() && #[trigger] m[i].id == a;
        m.update(i, RowModel { id: a, partners: m[i].partners.push(entry) })
    } else {
        m.push(RowModel { id: a, partners: seq![entry] })
    }
}

/// Adding an entry keeps the index well-formed, stores the new pairs under
/// the new entry, and leaves every other entry as it was.
pub proof fn lemma_with_entry(
    m: Seq<RowModel>,
    a: Seq<char>,
    b: Seq<char>,
    pairs: Seq<(usize, usize)>,
)
    requires
        model_wf(m),
        can_add(m, a, b),
    ensures
        model_wf(with_entry(m, a, b, pairs)),
        holds(with_entry(m, a, b, pairs), a, b),
        stored_pairs(with_entry(m, a, b, pairs), a, b) == pairs,
        forall|x: Seq<char>, y: Seq<char>|
            #[trigger] holds(with_entry(m, a, b, pairs), x, y) <==> holds(m, x, y) || (x == a && y
                == b),
        forall|x: Seq<char>, y: Seq<char>|
            holds(m, x, y) ==> #[trigger] stored_pairs(with_entry(m, a, b, pairs), x, y)
                == stored_pairs(m, x, y),
{
    let n = with_entry(m, a, b, pairs);
    let (ri, rj) = if has_row(m, a) {
        let i = choose|i: int| 0 <= i < m.len() && #[trigger] m[i].id == a;
        (i, m[i].partners.len() as int)
    } else {
        (m.len() as int, 0int)
    };
    assert forall|i: int, j: int| 0 <= i < m.len() && 0 <= j < m[i].partners.len() implies !(m[i].id
        == a && m[i].partners[j].id == b) && !(m[i].id == b && m[i].partners[j].id == a) by {
        if m[i].id == a && m[i].partners[j].id == b {
            assert(is_entry_at(m, a, b, i, j));
        }
        if m[i].id == b && m[i].partners[j].id == a {
            assert(is_entry_at(m, b, a, i, j));
        }
    }
    lemma_entry_unique(n, a, b, ri, rj);
    assert forall|x: Seq<char>, y: Seq<char>| #[trigger]
        holds(n, x, y) <==> holds(m, x, y) || (x == a && y == b) by {
        if holds(n, x, y) {
            let (i, j) = choose|i: int, j: int| is_entry_at(n, x, y, i, j);
            if !(i == ri && j == rj) {
                assert(is_entry_at(m, x, y, i, j));
            }
        }
        if holds(m, x, y) {
            let (i, j) = choose|i: int, j: int| is_entry_at(m, x, y, i, j);
            assert(is_entry_at(n, x, y, i, j));
        }
    }
    assert forall|x: Seq<char>, y: Seq<char>| holds(m, x, y) implies #[trigger] stored_pairs(
        n,
        x,
        y,
    ) == stored_pairs(m, x, y) by {
        let (i, j) = choose|i: int, j: int| is_entry_at(m, x, y, i, j);
        lemma_entry_unique(m, x, y, i, j);
        lemma_entry_unique(n, x, y, i, j);
    }
}

/// The match index. Of two tracks that meet, one owns a row and the other is
/// named in it; which of the two owns the row is decided by whoever fills the
/// index, and a query finds the entry from either side.
#[derive(Debug)]
pub struct MatchIndex {
    rows: Vec<Row>,
}

impl View for MatchIndex {
    type V = Seq<RowModel>;

    closed spec fn view(&self) -> Seq<RowModel> {
        rows_model(self.rows@)
    }
}

/// The first row that belongs to `id`, if there is one.
fn find_row(rows: &Vec<Row>, id: &String) -> (r: Option<usize>)
    ensures
        match r {
            Some(i) => i < rows.len() && rows[i as int].id@ == id@ && forall|k: int|
                0 <= k < i ==> rows[k].id@ != id@,
            None => forall|k: int| 0 <= k < rows.len() ==> rows[k].id@ != id@,
        },
{
    let mut i: usize = 0;
    while i < rows.len()
        invariant
            i <= rows.len(),
            forall|k: int| 0 <= k < i ==> rows[k].id@ != id@,
        decreases rows.len() - i,
    {
        if rows[i].id == *id {
            return Some(i);
        }
        i += 1;
    }
    None
}

/// The first entry that names `id`, if there is one.
fn find_partner(partners: &Vec<Partner>, id: &String) -> (r: Option<usize>)
    ensures
        match r {
            Some(j) => j < partners.len() && partners[j as int].id@ == id@ && forall|k: int|
                0 <= k < j ==> partners[k].id@ != id@,
            None => forall|k: int| 0 <= k < partners.len() ==> partners[k].id@ != id@,
        },
{
    let mut j: usize = 0;
    while j < partners.len()
        invariant
            j <= partners.len(),
            forall|k: int| 0 <= k < j ==> partners[k].id@ != id@,
        decreases partners.len() - j,
    {
        if partners[j].id == *id {
            return Some(j);
        }
        j += 1;
    }
    None
}

/// Where the directed entry from `a` to `b` stands, if it is stored.
fn find_entry(rows: &Vec<Row>, a: &String, b: &String) -> (r: Option<(usize, usize)>)
    requires
        model_wf(rows_model(rows@)),
    ensures
        match r {
            Some((i, j)) => is_entry_at(rows_model(rows@), a@, b@, i as int, j as int),
            None => !holds(rows_model(rows@), a@, b@),
        },
{
    let ghost m = rows_model(rows@);
    match find_row(rows, a) {
        Some(i) => {
            match find_partner(&rows[i].partners, b) {
                Some(j) => Some((i, j)),
                None => {
                    proof {
                        if holds(m, a@, b@) {
                            let (i2, j2) = choose|i2: int, j2: int| is_entry_at(m, a@, b@, i2, j2);
                            if i < i2 {
                                assert(m[i as int].id != m[i2].id);
                            }
                        }
                    }
                    None
                },
            }
        },
        None => {
            None
        },
    }
}

/// A copy of `pairs`.
fn copy_pairs(pairs: &Vec<(usize, usize)>) -> (r: Vec<(usize, usize)>)
    ensures
        r@ == pairs@,
{
    let mut out: Vec<(usize, usize)> = Vec::new();
    let mut k: usize = 0;
    while k < pairs.len()
        invariant
            k <= pairs.len(),
            out@ == pairs@.take(k as int),
        decreases pairs.len() - k,
    {
        out.push(pairs[k]);
        k += 1;
    }
    out
}

/// A copy of `pairs` in which the components of each pair are exchanged.
fn copy_flipped(pairs: &Vec<(usize, usize)>) -> (r: Vec<(usize, usize)>)
    ensures
        r@ == flip_pairs(pairs@),
{
    let mut out: Vec<(usize, usize)> = Vec::new();
    let mut k: usize = 0;
    while k < pairs.len()
        invariant
            k <= pairs.len(),
            out@ == flip_pairs(pairs@.take(k as int)),
        decreases pairs.len() - k,
    {
        let p = pairs[k];
        out.push((p.1, p.0));
        k += 1;
    }
    out
}

/// Whether no two rows belong to one track.
fn check_rows_distinct(rows: &Vec<Row>) -> (ok: bool)
    ensures
        ok == rows_distinct(rows_model(rows@)),
{
    let ghost m = rows_model(rows@);
    let mut k: usize = 0;
    while k < rows.len()
        invariant
            k <= rows.len(),
            m == rows_model(rows@),
            forall|i: int, k2: int| 0 <= i < k2 < k ==> #[trigger] m[i].id != #[trigger] m[k2].id,
        decreases rows.len() - k,
    {
        let mut i: usize = 0;
        while i < k
            invariant
                i <= k < rows.len(),
                m == rows_model(rows@),
                forall|i2: int| 0 <= i2 < i ==> #[trigger] m[i2].id != m[k as int].id,
            decreases k - i,
        {
            if rows[i].id == rows[k].id {
                assert(m[i as int].id == m[k as int].id);
                return false;
            }
            i += 1;
        }
        k += 1;
    }
    true
}

/// Whether no two of the entries name one track.
fn check_names_distinct(partners: &Vec<Partner>) -> (ok: bool)
    ensures
        ok == forall|j: int, l: int|
            0 <= j < l < partners.len() ==> #[trigger] partners[j].id@ != #[trigger] partners[l].id@,
{
    let mut l: usize = 0;
    while l < partners.len()
        invariant
            l <= partners.len(),
            forall|j: int, l2: int|
                0 <= j < l2 < l ==> #[trigger] partners[j].id@ != #[trigger] partners[l2].id@,
        decreases partners.len() - l,
    {
        let mut j: usize = 0;
        while j < l
            invariant
                j <= l < partners.len(),
                forall|j2: int| 0 <= j2 < j ==> #[trigger] partners[j2].id@ != partners[l as int].id@,
            decreases l - j,
        {
            if partners[j].id == partners[l].id {
                return false;
            }
            j += 1;
        }
        l += 1;
    }
    true
}

/// Whether no row names a track twice.
fn check_partners_distinct(rows: &Vec<Row>) -> (ok: bool)
    ensures
        ok == partners_distinct(rows_model(rows@)),
{
    let ghost m = rows_model(rows@);
    let mut i: usize = 0;
    while i < rows.len()
        invariant
            i <= rows.len(),
            m == rows_model(rows@),
            forall|i2: int, j: int, l: int|
                0 <= i2 < i && 0 <= j < l < m[i2].partners.len() ==> #[trigger] m[i2].partners[j].id
                    != #[trigger] m[i2].partners[l].id,
        decreases rows.len() - i,
    {
        if !check_names_distinct(&rows[i].partners) {
            proof {
                let named = rows[i as int].partners;
                let (j, l) = choose|j: int, l: int|
                    0 <= j < l < named.len() && #[trigger] named[j].id@ == #[trigger] named[l].id@;
                assert(m[i as int].partners[j].id == m[i as int].partners[l].id);
            }
            return false;
        }
        i += 1;
    }
    true
}

/// Whether no row names the track that it belongs to.
fn check_no_self_pair(rows: &Vec<Row>) -> (ok: bool)
    ensures
        ok == no_self_pair(rows_model(rows@)),
{
    let ghost m = rows_model(rows@);
    let mut i: usize = 0;
    while i < rows.len()
        invariant
            i <= rows.len(),
            m == rows_model(rows@),
            forall|i2: int, j: int|
                0 <= i2 < i && 0 <= j < m[i2].partners.len() ==> #[trigger] m[i2].partners[j].id
                    != m[i2].id,
        decreases rows.len() - i,
    {
        if let Some(j) = find_partner(&rows[i].partners, &rows[i].id) {
            assert(m[i as int].partners[j as int].id == m[i as int].id);
            return false;
        }
        i += 1;
    }
    true
}

/// Whether no two tracks are stored in both directions.
fn check_one_direction(rows: &Vec<Row>) -> (ok: bool)
    requires
        rows_distinct(rows_model(rows@)),
    ensures
        ok == one_direction(rows_model(rows@)),
{
    let ghost m = rows_model(rows@);
    let mut i: usize = 0;
    while i < rows.len()
        invariant
            i <= rows.len(),
            m == rows_model(rows@),
            rows_distinct(m),
            forall|i2: int, j: int, k: int, l: int|
                0 <= i2 < i && 0 <= j < m[i2].partners.len() && 0 <= k < m.len() && 0 <= l
                    < m[k].partners.len() ==> !(#[trigger] m[i2].partners[j].id == m[k].id
                    && #[trigger] m[k].partners[l].id == m[i2].id),
        decreases rows.len() - i,
    {
        let mut j: usize = 0;
        while j < rows[i].partners.len()
            invariant
                i < rows.len(),
                j <= rows[i as int].partners.len(),
                m == rows_model(rows@),
                rows_distinct(m),
                forall|j2: int, k: int, l: int|
                    0 <= j2 < j && 0 <= k < m.len() && 0 <= l < m[k].partners.len() ==> !(
                    #[trigger] m[i as int].partners[j2].id == m[k].id && #[trigger] m[k].partners[l].id
                        == m[i as int].id),
            decreases rows[i as int].partners.len() - j,
        {
            match find_row(rows, &rows[i].partners[j].id) {
                Some(k) => {
                    match find_partner(&rows[k].partners, &rows[i].id) {
                        Some(l) => {
                            assert(m[i as int].partners[j as int].id == m[k as int].id
                                && m[k as int].partners[l as int].id == m[i as int].id);
                            return false;
                        },
                        None => {
                            assert forall|k2: int, l: int|
                                0 <= k2 < m.len() && 0 <= l < m[k2].partners.len() implies !(
                            m[i as int].partners[j as int].id == m[k2].id
                                && #[trigger] m[k2].partners[l].id == m[i as int].id) by {
                                if m[i as int].partners[j as int].id == m[k2].id {
                                    if k < k2 {
                                        assert(m[k as int].id != m[k2].id);
                                    }
                                }
                            }
                        },
                    }
                },
                None => {},
            }
            j += 1;
        }
        i += 1;
    }
    true
}

impl MatchIndex {
    /// The invariant of the index holds.
    pub open spec fn wf(&self) -> bool {
        model_wf(self@)
    }

    /// An index with nothing stored.
    pub fn new() -> (r: MatchIndex)
        ensures
            r.wf(),
            r@ == Seq::<RowModel>::empty(),
    {
        MatchIndex { rows: Vec::new() }
    }

    /// The index that holds exactly `rows`, if they keep the invariant.
    pub fn from_rows(rows: Vec<Row>) -> (r: Option<MatchIndex>)
        ensures
            match r {
                Some(index) => index.wf() && index@ == rows_model(rows@),
                None => !model_wf(rows_model(rows@)),
            },
    {
        if check_rows_distinct(&rows) && check_partners_distinct(&rows) && check_no_self_pair(&rows)
            && check_one_direction(&rows) {
            Some(MatchIndex { rows })
        } else {
            None
        }
    }

    /// Stores `pairs` under the directed entry from `a` to `b`, unless the two
    /// are one track or are stored already, in either direction: then the
    /// index stays as it is. Says whether the entry was added.
    pub fn insert(&mut self, a: String, b: String, pairs: Vec<(usize, usize)>) -> (added: bool)
        requires
            old(self).wf(),
        ensures
            final(self).wf(),
            added == can_add(old(self)@, a@, b@),
            added ==> final(self)@ == with_entry(old(self)@, a@, b@, pairs@),
            !added ==> final(self)@ == old(self)@,
    {
        if a == b {
            return false;
        }
        if find_entry(&self.rows, &a, &b).is_some() || find_entry(&self.rows, &b, &a).is_some() {
            return false;
        }
        let ghost before = self@;
        proof {
            lemma_with_entry(before, a@, b@, pairs@);
        }
        match find_row(&self.rows, &a) {
            Some(i) => {
                proof {
                    let c = choose|c: int| 0 <= c < before.len() && #[trigger] before[c].id == a@;
                    if i < c {
                        assert(before[i as int].id != before[c].id);
                    }
                }
                self.rows[i].partners.push(Partner { id: b, pairs });
                assert(self@ =~= with_entry(before, a@, b@, pairs@)) by {
                    assert(self@[i as int].partners =~= before[i as int].partners.push(
                        PartnerModel { id: b@, pairs: pairs@ },
                    ));
                }
            },
            None => {
                let mut partners: Vec<Partner> = Vec::new();
                partners.push(Partner { id: b, pairs });
                self.rows.push(Row { id: a, partners });
                assert(self@ =~= with_entry(before, a@, b@, pairs@)) by {
                    assert(self@[before.len() as int].partners =~= seq![
                        PartnerModel { id: b@, pairs: pairs@ },
                    ]);
                }
            },
        }
        true
    }

    /// The positions at which the two named tracks meet, from whichever
    /// side the index stores them. The first component of each pair is a
    /// position in `id_a`, the second a position in `id_b`. Empty where the
    /// index stores the two tracks in neither direction.
    pub fn lookup(&self, id_a: &str, id_b: &str) -> (r: Vec<(usize, usize)>)
        requires
            self.wf(),
        ensures
            r@ == lookup_pairs(self@, id_a@, id_b@),
    {
        let a = id_a.to_owned();
        let b = id_b.to_owned();
        match find_entry(&self.rows, &a, &b) {
            Some((i, j)) => {
                proof {
                    lemma_entry_unique(self@, a@, b@, i as int, j as int);
                }
                copy_pairs(&self.rows[i].partners[j].pairs)
            },
            None => {
                match find_entry(&self.rows, &b, &a) {
                    Some((i, j)) => {
                        proof {
                            lemma_entry_unique(self@, b@, a@, i as int, j as int);
                        }
                        copy_flipped(&self.rows[i].partners[j].pairs)
                    },
                    None => Vec::new(),
                }
            },
        }
    }

    /// The rows of the index, in the order in which they were first filled.
    pub fn rows(&self) -> (r: &Vec<Row>)
        ensures
            rows_model(r@) == self@,
    {
        &self.rows
    }
}

} // verus!

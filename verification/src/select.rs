use vstd::prelude::*;

use crate::crud::{
    get_page_by_id, get_unread_pages_by_source, has_page_id, is_row_of, lemma_page_id_unique,
    lemma_unread_rows_sub, page_by_id, pages_with_source_weight, unread_rows_of_source, Store,
    StoreModel,
};
use crate::models::{Page, PageModel};

verus! {

/// The adjusted weight of the candidate at `index`: its source's weight plus
/// a recency bonus that grows by one every ten positions through the
/// date-ordered candidate list.
pub open spec fn spec_adjusted_weight(weight: int, index: int) -> int {
    weight + index / 10
}

/// Running total of adjusted weights through position `i`, inclusive;
/// 0 for `i == -1`.
pub open spec fn cumulative_weight(s: Seq<(i32, i32)>, i: int) -> int
    decreases i + 1,
{
    if i < 0 {
        0
    } else {
        cumulative_weight(s, i - 1) + spec_adjusted_weight(s[i].1 as int, i)
    }
}

/// The sum of every candidate's adjusted weight: the top of the draw range.
pub open spec fn total_adjusted_weight(s: Seq<(i32, i32)>) -> int {
    cumulative_weight(s, s.len() - 1)
}

/// The adjusted weights, position by position.
pub open spec fn adjusted_weights(s: Seq<(i32, i32)>) -> Seq<int> {
    Seq::new(s.len(), |i: int| spec_adjusted_weight(s[i].1 as int, i))
}

/// Every candidate carries a weight that is not negative.
pub open spec fn weights_nonneg(s: Seq<(i32, i32)>) -> bool {
    forall|i: int| 0 <= i < s.len() ==> (#[trigger] s[i]).1 >= 0
}

/// The draw selects position `i`: the first position whose running total
/// reaches the draw.
pub open spec fn selection_at(s: Seq<(i32, i32)>, draw: int, i: int) -> bool {
    &&& 0 <= i < s.len()
    &&& cumulative_weight(s, i) >= draw
    &&& forall|j: int| 0 <= j < i ==> cumulative_weight(s, j) < draw
}

/// Some position's running total reaches the draw.
pub open spec fn some_selection(s: Seq<(i32, i32)>, draw: int) -> bool {
    exists|i: int| selection_at(s, draw, i)
}

/// The position the draw selects, where one exists.
pub open spec fn selected_index(s: Seq<(i32, i32)>, draw: int) -> int {
    choose|i: int| selection_at(s, draw, i)
}

/// Running totals never decrease when no weight is negative.
pub proof fn lemma_cumulative_monotone(s: Seq<(i32, i32)>, i: int, j: int)
    requires
        weights_nonneg(s),
        -1 <= i <= j < s.len(),
    ensures
        cumulative_weight(s, i) <= cumulative_weight(s, j),
    decreases j - i,
{
    if i < j {
        lemma_cumulative_monotone(s, i, j - 1);
        assert(s[j].1 >= 0);
    }
}

/// Running totals start from zero and stay there or above.
pub proof fn lemma_cumulative_nonneg(s: Seq<(i32, i32)>, i: int)
    requires
        weights_nonneg(s),
        -1 <= i < s.len(),
    ensures
        cumulative_weight(s, i) >= 0,
{
    lemma_cumulative_monotone(s, -1, i);
}

/// Running totals stay below a linear bound, so a 64-bit accumulator cannot
/// overflow for any candidate list whose length fits in an `i32`.
pub proof fn lemma_cumulative_bounded(s: Seq<(i32, i32)>, i: int)
    requires
        -1 <= i < s.len(),
        s.len() <= i32::MAX as int,
    ensures
        cumulative_weight(s, i) <= (i + 1) * (2 * (i32::MAX as int)),
    decreases i + 1,
{
    let m = 2 * (i32::MAX as int);
    if i >= 0 {
        lemma_cumulative_bounded(s, i - 1);
        assert(s[i].1 as int <= i32::MAX as int);
        assert(i / 10 <= i32::MAX as int);
        assert(spec_adjusted_weight(s[i].1 as int, i) <= m);
        assert(i * m + m == (i + 1) * m) by (nonlinear_arith);
    }
}

/// A running total depends only on the candidates before it.
pub proof fn lemma_cumulative_prefix(s: Seq<(i32, i32)>, t: Seq<(i32, i32)>, i: int)
    requires
        -1 <= i < s.len(),
        i < t.len(),
        forall|j: int| 0 <= j <= i ==> (#[trigger] s[j]).1 == t[j].1,
    ensures
        cumulative_weight(s, i) == cumulative_weight(t, i),
    decreases i + 1,
{
    if i >= 0 {
        lemma_cumulative_prefix(s, t, i - 1);
    }
}

/// The weight-sum law: the final cumulative entry equals the plain sum of all
/// adjusted weights, so the inclusive draw range covers exactly the whole
/// weight mass, no more and no less.
pub proof fn lemma_total_is_sum_of_adjusted(s: Seq<(i32, i32)>)
    ensures
        total_adjusted_weight(s) == adjusted_weights(s).fold_left(
            0,
            |acc: int, w: int| acc + w,
        ),
    decreases s.len(),
{
    if s.len() == 0 {
    } else {
        let prev = s.drop_last();
        lemma_total_is_sum_of_adjusted(prev);
        assert(adjusted_weights(s).drop_last() =~= adjusted_weights(prev));
        lemma_cumulative_prefix(s, prev, s.len() - 2);
        assert(adjusted_weights(s).last() == spec_adjusted_weight(
            s[s.len() - 1].1 as int,
            s.len() - 1,
        ));
    }
}

/// At most one position is selected by a given draw.
pub proof fn lemma_selection_unique(s: Seq<(i32, i32)>, draw: int, i: int, j: int)
    requires
        selection_at(s, draw, i),
        selection_at(s, draw, j),
    ensures
        i == j,
{
    if i < j {
        assert(cumulative_weight(s, i) < draw);
    }
    if j < i {
        assert(cumulative_weight(s, j) < draw);
    }
}

/// Wherever some running total reaches the draw, a first such position exists.
pub proof fn lemma_selection_exists_upto(s: Seq<(i32, i32)>, draw: int, k: int)
    requires
        0 <= k < s.len(),
        cumulative_weight(s, k) >= draw,
    ensures
        some_selection(s, draw),
    decreases k,
{
    if forall|j: int| 0 <= j < k ==> cumulative_weight(s, j) < draw {
        assert(selection_at(s, draw, k));
    } else {
        let j = choose|j: int| 0 <= j < k && cumulative_weight(s, j) >= draw;
        lemma_selection_exists_upto(s, draw, j);
    }
}

/// A draw inside the inclusive range always selects some position of a
/// non-empty candidate list.
pub proof fn lemma_selection_exists(s: Seq<(i32, i32)>, draw: int)
    requires
        weights_nonneg(s),
        s.len() > 0,
        draw <= total_adjusted_weight(s),
    ensures
        some_selection(s, draw),
{
    lemma_selection_exists_upto(s, draw, s.len() - 1);
}

/// Walks the running totals and returns the first position that reaches the
/// draw; `None` exactly when no position does.
pub fn select_index(weighted_pages: &Vec<(i32, i32)>, draw: i64) -> (r: Option<usize>)
    requires
        weighted_pages@.len() <= i32::MAX as int,
        weights_nonneg(weighted_pages@),
    ensures
        match r {
            Some(i) => selection_at(weighted_pages@, draw as int, i as int),
            None => forall|j: int|
                0 <= j < weighted_pages@.len() ==> cumulative_weight(weighted_pages@, j)
                    < draw as int,
        },
{
    let n = weighted_pages.len();
    let mut sum: i64 = 0;
    let mut i: usize = 0;
    while i < n
        invariant
            n == weighted_pages@.len(),
            n <= i32::MAX as int,
            weights_nonneg(weighted_pages@),
            0 <= i <= n,
            sum as int == cumulative_weight(weighted_pages@, i as int - 1),
            forall|j: int| 0 <= j < i ==> cumulative_weight(weighted_pages@, j) < draw as int,
        decreases n - i,
    {
        let bonus: i32 = (i as i32) / 10;
        proof {
            lemma_cumulative_nonneg(weighted_pages@, i as int - 1);
            lemma_cumulative_nonneg(weighted_pages@, i as int);
            lemma_cumulative_bounded(weighted_pages@, i as int);
        }
        let adj: i64 = weighted_pages[i].1 as i64 + bonus as i64;
        sum = sum + adj;
        if draw <= sum {
            return Some(i);
        }
        i = i + 1;
    }
    None
}

/// The total adjusted weight of the candidate list.
pub fn total_weight(weighted_pages: &Vec<(i32, i32)>) -> (t: i64)
    requires
        weighted_pages@.len() <= i32::MAX as int,
        weights_nonneg(weighted_pages@),
    ensures
        t as int == total_adjusted_weight(weighted_pages@),
        t >= 0,
{
    let n = weighted_pages.len();
    let mut sum: i64 = 0;
    let mut i: usize = 0;
    while i < n
        invariant
            n == weighted_pages@.len(),
            n <= i32::MAX as int,
            weights_nonneg(weighted_pages@),
            0 <= i <= n,
            sum as int == cumulative_weight(weighted_pages@, i as int - 1),
            sum >= 0,
        decreases n - i,
    {
        let bonus: i32 = (i as i32) / 10;
        proof {
            lemma_cumulative_nonneg(weighted_pages@, i as int - 1);
            lemma_cumulative_nonneg(weighted_pages@, i as int);
            lemma_cumulative_bounded(weighted_pages@, i as int);
        }
        let adj: i64 = weighted_pages[i].1 as i64 + bonus as i64;
        sum = sum + adj;
        i = i + 1;
    }
    sum
}

/// Relies on rand::random_range: a value drawn uniformly from the given
/// inclusive range. Nothing more is assumed of which value comes back.
#[verifier::external_body]
fn random_in_range(bound: i64) -> (r: i64)
    requires
        bound >= 0,
    ensures
        0 <= r <= bound,
{
    rand::random_range(0..=bound)
}

/// The selection pipeline as a pure function of the injected draw: walk the
/// cumulative adjusted weights, take the first position that reaches the
/// draw, and fetch that candidate's page.
pub fn select_page_with_draw(st: &Store, weighted_pages: &Vec<(i32, i32)>, draw: i64) -> (r:
    Option<Page>)
    requires
        st.wf(),
        weighted_pages@.len() <= i32::MAX as int,
        weights_nonneg(weighted_pages@),
    ensures
        ({
            let s = weighted_pages@;
            let d = draw as int;
            if some_selection(s, d) {
                let chosen = s[selected_index(s, d)].0 as int;
                match r {
                    Some(p) => has_page_id(st@, chosen) && p@ == page_by_id(st@, chosen),
                    None => !has_page_id(st@, chosen),
                }
            } else {
                r is None
            }
        }),
{
    match select_index(weighted_pages, draw) {
        Some(i) => {
            proof {
                assert(selection_at(weighted_pages@, draw as int, i as int));
                lemma_selection_unique(
                    weighted_pages@,
                    draw as int,
                    i as int,
                    selected_index(weighted_pages@, draw as int),
                );
            }
            get_page_by_id(st, weighted_pages[i].0)
        },
        None => {
            proof {
                if some_selection(weighted_pages@, draw as int) {
                    let k = selected_index(weighted_pages@, draw as int);
                    assert(selection_at(weighted_pages@, draw as int, k));
                    assert(cumulative_weight(weighted_pages@, k) < draw as int);
                }
            }
            None
        },
    }
}

/// Chooses one page by weighted random sampling: one uniform draw over the
/// inclusive range `[0, total]` of cumulative adjusted weights, then the walk
/// of `select_page_with_draw`. `None` only for an empty candidate list or a
/// selected candidate whose page row is gone.
pub fn select_page(st: &Store, weighted_pages: Vec<(i32, i32)>) -> (r: Option<Page>)
    requires
        st.wf(),
        weighted_pages@.len() <= i32::MAX as int,
        weights_nonneg(weighted_pages@),
    ensures
        ({
            let s = weighted_pages@;
            match r {
                Some(p) => exists|d: int|
                    {
                        &&& 0 <= d <= total_adjusted_weight(s)
                        &&& #[trigger] some_selection(s, d)
                        &&& has_page_id(st@, s[selected_index(s, d)].0 as int)
                        &&& p@ == page_by_id(st@, s[selected_index(s, d)].0 as int)
                    },
                None => s.len() == 0 || exists|d: int|
                    {
                        &&& 0 <= d <= total_adjusted_weight(s)
                        &&& #[trigger] some_selection(s, d)
                        &&& !has_page_id(st@, s[selected_index(s, d)].0 as int)
                    },
            }
        }),
{
    let total = total_weight(&weighted_pages);
    let draw = random_in_range(total);
    let r = select_page_with_draw(st, &weighted_pages, draw);
    proof {
        if weighted_pages@.len() > 0 {
            lemma_selection_exists(weighted_pages@, draw as int);
        } else {
            if some_selection(weighted_pages@, draw as int) {
                let k = selected_index(weighted_pages@, draw as int);
                assert(selection_at(weighted_pages@, draw as int, k));
            }
        }
    }
    r
}


/// A candidate list whose page ids are pairwise distinct and all present in
/// the store is no longer than the page table itself.
proof fn lemma_candidates_len(m: StoreModel, cands: Seq<(i32, i32)>)
    requires
        forall|i: int| 0 <= i < cands.len() ==> has_page_id(m, (#[trigger] cands[i]).0 as int),
        forall|i: int, j: int| 0 <= i < j < cands.len() ==> (#[trigger] cands[i]).0 != (
        #[trigger] cands[j]).0,
    ensures
        cands.len() <= m.pages.len(),
{
    broadcast use vstd::seq_lib::seq_to_set_is_finite;
    broadcast use vstd::set::group_set_axioms;

    let ids = cands.map_values(|c: (i32, i32)| c.0 as int);
    assert(ids.no_duplicates());
    ids.unique_seq_to_set();
    let page_ids = m.pages.map_values(|p: PageModel| p.id);
    page_ids.lemma_cardinality_of_set();
    assert forall|x: int| ids.to_set().contains(x) implies page_ids.to_set().contains(x) by {
        let i = choose|i: int| 0 <= i < ids.len() && ids[i] == x;
        assert(has_page_id(m, cands[i].0 as int));
        let k = choose|k: int| 0 <= k < m.pages.len() && m.pages[k].id == cands[i].0 as int;
        assert(page_ids[k] == x);
        assert(page_ids.contains(x));
    }
    assert(ids.to_set().subset_of(page_ids.to_set()));
    vstd::set_lib::lemma_len_subset(ids.to_set(), page_ids.to_set());
}

/// Picks the next page to surface: the weighted random selection over every
/// unread page, date-ordered with the recency bonus. `None` exactly when the
/// store holds no unread page.
pub fn find_next_page(st: &Store) -> (r: Option<Page>)
    requires
        st.wf(),
    ensures
        match r {
            Some(p) => has_page_id(st@, p@.id) && p@ == page_by_id(st@, p@.id) && p@.read
                is None,
            None => forall|k: int|
                0 <= k < st@.pages.len() ==> (#[trigger] st@.pages[k]).read is Some,
        },
{
    let weighted_pages = pages_with_source_weight(st);
    let ghost s = weighted_pages@;
    proof {
        lemma_candidates_len(st@, s);
    }
    let r = select_page(st, weighted_pages);
    proof {
        match r {
            Some(ref p) => {
                let d = choose|d: int|
                    {
                        &&& 0 <= d <= total_adjusted_weight(s)
                        &&& #[trigger] some_selection(s, d)
                        &&& has_page_id(st@, s[selected_index(s, d)].0 as int)
                        &&& p@ == page_by_id(st@, s[selected_index(s, d)].0 as int)
                    };
                let i = selected_index(s, d);
                assert(selection_at(s, d, i));
                let chosen = s[i].0 as int;
                assert(page_by_id(st@, chosen).read is None);
                assert(p@.id == chosen);
            },
            None => {
                if s.len() > 0 {
                    let d = choose|d: int|
                        {
                            &&& 0 <= d <= total_adjusted_weight(s)
                            &&& #[trigger] some_selection(s, d)
                            &&& !has_page_id(st@, s[selected_index(s, d)].0 as int)
                        };
                    let i = selected_index(s, d);
                    assert(selection_at(s, d, i));
                    assert(has_page_id(st@, s[i].0 as int));
                    assert(false);
                }
                assert forall|k: int| 0 <= k < st@.pages.len() implies (
                #[trigger] st@.pages[k]).read is Some by {
                    if st@.pages[k].read is None {
                        assert(crate::crud::pairs_carry_id(s, st@.pages[k].id));
                    }
                }
            },
        }
    }
    r
}

/// Picks the next unread page of one source, every candidate carrying the
/// same weight. `None` exactly when that source has no unread page.
pub fn find_next_page_by_source_id(st: &Store, source_id: i32) -> (r: Option<Page>)
    requires
        st.wf(),
    ensures
        match r {
            Some(p) => has_page_id(st@, p@.id) && p@ == page_by_id(st@, p@.id) && p@.read
                is None && p@.source_id == source_id as int,
            None => forall|k: int|
                0 <= k < st@.pages.len() && (#[trigger] st@.pages[k]).source_id
                    == source_id as int ==> st@.pages[k].read is Some,
        },
{
    let pages = get_unread_pages_by_source(st, source_id);
    let ghost rows = unread_rows_of_source(st@.pages, source_id as int);
    proof {
        lemma_unread_rows_sub(st@.pages, source_id as int);
    }
    let n = pages.len();
    let mut weighted_pages: Vec<(i32, i32)> = Vec::new();
    let mut i: usize = 0;
    while i < n
        invariant
            n == pages@.len(),
            0 <= i <= n,
            weighted_pages@.len() == i,
            forall|j: int| 0 <= j < i ==> (#[trigger] weighted_pages@[j]).0 as int
                == pages@[j]@.id && weighted_pages@[j].1 == 10,
        decreases n - i,
    {
        weighted_pages.push((pages[i].id, 10));
        i = i + 1;
    }
    let ghost s = weighted_pages@;
    proof {
        assert forall|j: int| 0 <= j < s.len() implies {
            &&& has_page_id(st@, (#[trigger] s[j]).0 as int)
            &&& page_by_id(st@, s[j].0 as int).read is None
            &&& page_by_id(st@, s[j].0 as int).source_id == source_id as int
        } by {
            assert(is_row_of(rows, pages@[j]@));
            let k = choose|k: int| 0 <= k < rows.len() && rows[k] == pages@[j]@;
            let o = choose|o: int| 0 <= o < st@.pages.len() && st@.pages[o] == rows[k];
            lemma_page_id_unique(st@, st@.pages[o].id, o);
        }
    }
    let r = select_page(st, weighted_pages);
    proof {
        match r {
            Some(ref p) => {
                let d = choose|d: int|
                    {
                        &&& 0 <= d <= total_adjusted_weight(s)
                        &&& #[trigger] some_selection(s, d)
                        &&& has_page_id(st@, s[selected_index(s, d)].0 as int)
                        &&& p@ == page_by_id(st@, s[selected_index(s, d)].0 as int)
                    };
                let i2 = selected_index(s, d);
                assert(selection_at(s, d, i2));
                assert(p@.id == s[i2].0 as int);
            },
            None => {
                if s.len() > 0 {
                    let d = choose|d: int|
                        {
                            &&& 0 <= d <= total_adjusted_weight(s)
                            &&& #[trigger] some_selection(s, d)
                            &&& !has_page_id(st@, s[selected_index(s, d)].0 as int)
                        };
                    let i2 = selected_index(s, d);
                    assert(selection_at(s, d, i2));
                    assert(false);
                }
                assert forall|k: int|
                    0 <= k < st@.pages.len() && (#[trigger] st@.pages[k]).source_id
                        == source_id as int implies st@.pages[k].read is Some by {
                    if st@.pages[k].read is None {
                        crate::crud::lemma_unread_rows_complete(
                            st@.pages,
                            source_id as int,
                            k,
                        );
                        assert(rows.len() == 0);
                        let x = choose|x: int| 0 <= x < rows.len() && rows[x] == st@.pages[k];
                        assert(false);
                    }
                }
            },
        }
    }
    r
}

} // verus!

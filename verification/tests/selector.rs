use mwr::crud::{create_pages, create_source, Store};
use mwr::models::{NewPage, SourceType};
use mwr::select::{select_index, select_page_with_draw, total_weight};
use mwr::select_page;

fn entry(source_id: i32, url: &str, date: i64) -> NewPage {
    NewPage {
        source_id,
        url: url.to_string(),
        title: url.to_string(),
        read: None,
        date: Some(date),
    }
}

fn two_candidate_store() -> Store {
    let mut st = Store::new();
    let source = create_source(&mut st, "https://a.example/feed", SourceType::Rss, "A".to_string(), 100);
    let n = create_pages(
        &mut st,
        vec![
            entry(source.id, "https://a.example/1", 10),
            entry(source.id, "https://a.example/2", 20),
        ],
        100,
    );
    assert_eq!(n, 2);
    st
}

#[test]
fn draw_three_selects_first_candidate() {
    // candidates [(1,10),(2,5)]: adjusted weights 10 and 5, cumulative [10,15]
    let st = two_candidate_store();
    let picked = select_page_with_draw(&st, &vec![(1, 10), (2, 5)], 3).unwrap();
    assert_eq!(picked.id, 1);
}

#[test]
fn draw_fifteen_selects_second_candidate() {
    let st = two_candidate_store();
    let picked = select_page_with_draw(&st, &vec![(1, 10), (2, 5)], 15).unwrap();
    assert_eq!(picked.id, 2);
}

#[test]
fn draw_on_boundary_selects_first_candidate() {
    let st = two_candidate_store();
    let picked = select_page_with_draw(&st, &vec![(1, 10), (2, 5)], 10).unwrap();
    assert_eq!(picked.id, 1);
    let picked = select_page_with_draw(&st, &vec![(1, 10), (2, 5)], 11).unwrap();
    assert_eq!(picked.id, 2);
}

#[test]
fn empty_candidates_yield_none_for_any_draw() {
    let st = Store::new();
    assert!(select_page_with_draw(&st, &vec![], 0).is_none());
    assert!(select_page_with_draw(&st, &vec![], 7).is_none());
    assert!(select_page(&st, vec![]).is_none());
}

#[test]
fn select_index_returns_minimal_reaching_position() {
    assert_eq!(select_index(&vec![(1, 10), (2, 5)], 3), Some(0));
    assert_eq!(select_index(&vec![(1, 10), (2, 5)], 15), Some(1));
    assert_eq!(select_index(&vec![(1, 10), (2, 5)], 16), None);
    assert_eq!(select_index(&vec![(1, 0), (2, 5)], 0), Some(0));
}

#[test]
fn total_weight_matches_final_cumulative_entry() {
    assert_eq!(total_weight(&vec![(1, 10), (2, 5)]), 15);
    assert_eq!(total_weight(&vec![]), 0);
}

#[test]
fn recency_bonus_grows_every_ten_positions() {
    // eleven zero-weight candidates: only position 10 earns a bonus of 1
    let mut cands: Vec<(i32, i32)> = Vec::new();
    for i in 0..11 {
        cands.push((i + 1, 0));
    }
    assert_eq!(total_weight(&cands), 1);
    // the draw of 1 lands on the only candidate with weight: position 10
    assert_eq!(select_index(&cands, 1), Some(10));
}

#[test]
fn single_candidate_always_selected() {
    // one candidate: every draw in [0, total] lands on it, so the random
    // selection must return it
    let st = two_candidate_store();
    let picked = select_page(&st, vec![(1, 10)]).unwrap();
    assert_eq!(picked.id, 1);
}

use minefair_field::{Cell, Field, Judge, Risk};
use rand::seq::IndexedRandom;

#[test]
fn sanity() {
    let mut rng = rand::rng();
    let mut field = Field::default();
    let _ = field.reveal_cell((0, 0));
    for _ in 0..100 {
        let frontier = field.safe_frontier();
        let point = *frontier.choose(&mut rng).unwrap();
        let _ = field.reveal_cell(point);
    }

    for risk in field.risks().values() {
        assert!(
            risk.den >= 1 && risk.num <= risk.den,
            "risk {:?} is not sane",
            risk
        );
    }

    let mut surrounding_info: Vec<((i64, i64), (u8, u8))> = Vec::new();

    for (point, risk) in field.risks().iter() {
        if !risk.is_zero() && !risk.is_one() {
            continue;
        }

        for neighbour in minefair_field::adjacents(point) {
            let revealed = matches!(field.get(neighbour), Some(Cell::Revealed(_)));
            if revealed {
                let slot = match surrounding_info.iter_mut().find(|e| e.0 == neighbour) {
                    Some(s) => s,
                    None => {
                        surrounding_info.push((neighbour, (0, 0)));
                        surrounding_info.last_mut().unwrap()
                    }
                };
                if risk.is_zero() {
                    slot.1 .0 += 1;
                } else {
                    slot.1 .1 += 1;
                }
            }
        }
    }

    for (point, (conf_safes, conf_mines)) in surrounding_info {
        let num = match field.get(point) {
            Some(Cell::Revealed(num)) => num,
            _ => unreachable!(),
        };
        assert!(conf_mines <= num);
        assert!(conf_safes <= 8 - num);
    }
}

#[test]
fn first_click_shows_zero() {
    // S1: a fresh board under the Kind policy biases the first click to 0
    let mut field = Field::default();
    let r = field.reveal_cell_first_zero((0, 0));
    assert_eq!(r, Some(0));
    assert_eq!(field.get((0, 0)), Some(Cell::Revealed(0)));
    assert!(field.risks().len() >= 8);
}

#[test]
fn out_of_bounds_reveal_is_refused() {
    // S2: a 3 by 3 board centred on the origin has no cell at (-2, 0)
    let half = Risk::new(1, 2).unwrap();
    let mut field = Field::new(half, Judge::Strict, false, Some((3, 3)));
    assert_eq!(field.get((-2, 0)), None);
    let r = field.reveal_cell((-2, 0));
    assert_eq!(r, None);
    assert_eq!(field.cells_revealed(), 0);
    assert_eq!(field.risks().len(), 0);
    assert_eq!(field.time_elapsed(), 0);
}

#[test]
fn kind_refuses_certain_mine() {
    // S3: a neighbour whose cached probability is exactly 1 never opens
    let mut field = Field::default();
    field.set((0, 0), Cell::Revealed(1));
    field
        .risk_cache
        .entries
        .push((Risk::new(1, 1).unwrap(), (1, 0)));
    let before_cells = field.cells_revealed();
    let r = field.reveal_cell((1, 0));
    assert_eq!(r, None);
    assert_eq!(field.cells_revealed(), before_cells);
    assert_eq!(field.get((1, 0)), Some(Cell::Hidden(false)));
}

#[test]
fn kaboom_global_mid_risk_cell_clears() {
    // S4: with a single cached cell at probability one half, the policy
    // sees it in the cache with the global best above zero, so the reveal
    // goes ahead
    let half = Risk::new(1, 2).unwrap();
    let mut field = Field::new(half, Judge::KaboomGlobal, false, None);
    field.set((0, 0), Cell::Revealed(1));
    field.risk_cache.entries.push((half, (1, 0)));
    let r = field.reveal_cell((1, 0));
    assert!(r.is_some());
    assert!(matches!(field.get((1, 0)), Some(Cell::Revealed(_))));
    assert!(field.risks().get((1, 0)).is_none());
}

#[test]
fn solvable_mode_keeps_a_safe_move() {
    // S5: with solvability on, every intermediate state keeps a certainly
    // safe move while any frontier probability stays below 1
    let mut rng = rand::rng();
    let density = Risk::new(2, 5).unwrap();
    let mut field = Field::new(density, Judge::Kind, true, None);
    let _ = field.reveal_cell_first_zero((0, 0));
    for _ in 0..20 {
        let frontier = field.safe_frontier();
        if let Some(&point) = frontier.choose(&mut rng) {
            let _ = field.reveal_cell(point);
        }
        let any_below_one = field.risks().values().iter().any(|r| !r.is_one());
        if any_below_one {
            assert!(field.has_safe());
        }
    }
}

#[test]
fn definite_risk_under_random_policy() {
    let half = Risk::new(1, 2).unwrap();
    let mut field = Field::new(half, Judge::Random, false, None);
    field.set((0, 0), Cell::Revealed(2));
    field
        .risk_cache
        .entries
        .push((Risk::new(0, 1).unwrap(), (1, 0)));
    field.risk_cache.entries.push((half, (1, 1)));
    field
        .risk_cache
        .entries
        .push((Risk::new(1, 1).unwrap(), (0, 1)));
    assert_eq!(field.definite_risk((1, 0)), Some(false));
    assert_eq!(field.definite_risk((0, 1)), Some(true));
    assert_eq!(field.definite_risk((1, 1)), None);
}

#[test]
fn has_safe_tracks_the_best_probability() {
    let half = Risk::new(1, 2).unwrap();
    let mut field = Field::new(half, Judge::Kind, false, None);
    assert!(!field.has_safe());
    field.risk_cache.entries.push((half, (3, 3)));
    assert!(field.has_safe());

    let mut strict = Field::new(half, Judge::Strict, false, None);
    strict.risk_cache.entries.push((half, (3, 3)));
    assert!(!strict.has_safe());
    strict
        .risk_cache
        .entries
        .insert(0, (Risk::new(0, 1).unwrap(), (4, 4)));
    assert!(strict.has_safe());
}

#[test]
fn one_by_one_board_is_won_after_one_reveal() {
    let half = Risk::new(1, 2).unwrap();
    let mut field = Field::new(half, Judge::Kind, false, Some((1, 1)));
    assert!(!field.is_won());
    let r = field.reveal_cell((0, 0));
    assert_eq!(r, Some(0));
    assert!(field.is_won());
}

#[test]
fn safe_frontier_lists_only_clear_cells() {
    let half = Risk::new(1, 2).unwrap();
    let mut field = Field::new(half, Judge::Strict, false, None);
    field.set((0, 0), Cell::Revealed(1));
    field
        .risk_cache
        .entries
        .push((Risk::new(0, 1).unwrap(), (1, 0)));
    field.risk_cache.entries.push((half, (1, 1)));
    let frontier = field.safe_frontier();
    assert_eq!(frontier, vec![(1, 0)]);
}

#[test]
fn clear_empties_the_board() {
    let mut field = Field::default();
    let _ = field.reveal_cell_first_zero((0, 0));
    assert!(field.cells_revealed() > 0);
    field.clear();
    assert_eq!(field.cells_revealed(), 0);
    assert_eq!(field.risks().len(), 0);
    assert_eq!(field.get((0, 0)), Some(Cell::Hidden(false)));
}

#[test]
fn pass_time_accumulates() {
    let mut field = Field::default();
    field.pass_time(1500);
    field.pass_time(800);
    assert_eq!(field.time_elapsed(), 2300);
}

#[test]
fn local_judge_compares_against_the_group() {
    let half = Risk::new(1, 2).unwrap();
    let quarter = Risk::new(1, 4).unwrap();
    let mut field = Field::new(half, Judge::Local, false, None);
    field.set((0, 0), Cell::Revealed(1));
    field.risk_cache.entries.push((quarter, (1, 0)));
    field.risk_cache.entries.push((half, (1, 1)));
    // a cell that is not the best of its connected group is refused
    assert_eq!(field.reveal_cell((1, 1)), None);
    // the best of the group clears
    assert!(field.reveal_cell((1, 0)).is_some());
}

#[test]
fn one_group_reports_split_frontiers() {
    let half = Risk::new(1, 2).unwrap();
    let mut field = Field::new(half, Judge::Kind, false, None);
    assert!(field.is_one_group());
    field.risk_cache.entries.push((half, (0, 0)));
    assert!(field.is_one_group());
    field.risk_cache.entries.push((half, (50, 50)));
    // two cached cells with no revealed path between them form two groups
    assert!(!field.is_one_group());
}

#[test]
fn flag_outside_a_finite_board_is_ignored() {
    let half = Risk::new(1, 2).unwrap();
    let mut field = Field::new(half, Judge::Kind, false, Some((3, 3)));
    field.toggle_flag((10, 10));
    assert_eq!(field.get((10, 10)), None);
    assert_eq!(field.cells_revealed(), 0);
}

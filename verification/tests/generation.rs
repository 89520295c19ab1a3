use rand::SeedableRng;
use startlist::generate_startlist;
use startlist::spacing::all_spacings_exceed;
use startlist::stabilize::stabilize_windows;
use startlist::types::Competitor;
use startlist::types::Window;

fn window(duration: i64, count: usize, tag: &str) -> Window {
    let mut competitors = Vec::new();
    for i in 0..count {
        competitors.push(Competitor {
            origin: 0,
            name: format!("{} Competitor {}", tag, i),
        });
    }
    Window {
        duration,
        competitors,
    }
}

fn rng(seed: u64) -> rand::rngs::StdRng {
    rand::rngs::StdRng::seed_from_u64(seed)
}

#[test]
fn scenario_three_windows() {
    let windows = vec![window(30, 2, "1"), window(30, 15, "2"), window(30, 4, "3")];
    let mut r = rng(42);
    let result = generate_startlist(windows, 3, 2, &mut r);
    assert_eq!(result.len(), 21);
    for pair in result.windows(2) {
        assert!(pair[0].offset <= pair[1].offset);
    }
    assert!(result[0].offset >= 0);
}

#[test]
fn scenario_three_windows_conserves_names() {
    let windows = vec![window(30, 2, "1"), window(30, 15, "2"), window(30, 4, "3")];
    let mut expected: Vec<String> = windows
        .iter()
        .flat_map(|w| w.competitors.iter().map(|c| c.name.clone()))
        .collect();
    expected.sort();
    let mut r = rng(42);
    let result = generate_startlist(windows, 3, 2, &mut r);
    let mut got: Vec<String> = result.iter().map(|c| c.competitor.name.clone()).collect();
    got.sort();
    assert_eq!(got, expected);
}

#[test]
fn stabilize_relieves_dense_window() {
    let mut windows = vec![window(30, 2, "1"), window(30, 15, "2"), window(30, 4, "3")];
    let converged = stabilize_windows(&mut windows, 3);
    assert!(converged);
    let total: usize = windows.iter().map(|w| w.competitors.len()).sum();
    assert_eq!(total, 21);
    assert!(windows[1].competitors.len() < 15);
    assert!(all_spacings_exceed(&windows, 3));
}

#[test]
fn stabilize_keeps_durations_and_order() {
    let mut windows = vec![window(30, 2, "1"), window(30, 15, "2"), window(30, 4, "3")];
    let _ = stabilize_windows(&mut windows, 3);
    assert_eq!(windows.len(), 3);
    for w in &windows {
        assert_eq!(w.duration, 30);
        // bottom-anchored prefix, unanchored middle, top-anchored suffix
        let ranks: Vec<i64> = w
            .competitors
            .iter()
            .map(|c| {
                if c.origin < 0 {
                    0
                } else if c.origin == 0 {
                    1
                } else {
                    2
                }
            })
            .collect();
        for pair in ranks.windows(2) {
            assert!(pair[0] <= pair[1]);
        }
    }
}

#[test]
fn scenario_single_competitor() {
    let windows = vec![window(30, 1, "solo")];
    let mut r = rng(7);
    let result = generate_startlist(windows, 3, 2, &mut r);
    assert_eq!(result.len(), 1);
    assert_eq!(result[0].offset, 0);
    assert_eq!(result[0].competitor.name, "solo Competitor 0");
}

#[test]
fn scenario_empty_window_respects_boundary() {
    let windows = vec![window(30, 0, "none"), window(30, 1, "late")];
    let mut r = rng(7);
    let result = generate_startlist(windows, 3, 2, &mut r);
    assert_eq!(result.len(), 1);
    assert_eq!(result[0].offset, 30);
}

#[test]
fn empty_event_gives_empty_output() {
    let mut r = rng(7);
    let result = generate_startlist(vec![window(30, 0, "a"), window(45, 0, "b")], 3, 2, &mut r);
    assert!(result.is_empty());
    let result = generate_startlist(Vec::new(), 3, 2, &mut r);
    assert!(result.is_empty());
}

#[test]
fn deterministic_under_fixed_seed() {
    let build = || vec![window(30, 2, "1"), window(30, 15, "2"), window(30, 4, "3")];
    let mut r1 = rng(123);
    let mut r2 = rng(123);
    let a = generate_startlist(build(), 3, 2, &mut r1);
    let b = generate_startlist(build(), 3, 2, &mut r2);
    assert_eq!(a.len(), b.len());
    for (x, y) in a.iter().zip(b.iter()) {
        assert_eq!(x.competitor.name, y.competitor.name);
        assert_eq!(x.offset, y.offset);
    }
}

#[test]
fn min_spacing_gaps_in_single_window() {
    // duration 30, 10 competitors: spacing 2 with remainder 9, so every gap
    // absorbs the extra unit and the offsets land on multiples of three.
    let windows = vec![window(30, 10, "w")];
    let mut r = rng(5);
    let result = generate_startlist(windows, 3, 2, &mut r);
    assert_eq!(result.len(), 10);
    for (i, c) in result.iter().enumerate() {
        assert_eq!(c.offset, 3 * i as i64);
    }
    for pair in result.windows(2) {
        let gap = pair[1].offset - pair[0].offset;
        assert!(gap >= 2);
        assert!(gap <= 3);
    }
}

#[test]
fn dense_window_clamps_to_min_spacing() {
    // duration 5, 10 competitors: spacing would round to zero, so consecutive
    // starts sit exactly the minimum spacing apart.
    let windows = vec![window(5, 10, "w")];
    let mut r = rng(9);
    let result = generate_startlist(windows, 3, 2, &mut r);
    assert_eq!(result.len(), 10);
    for pair in result.windows(2) {
        assert_eq!(pair[1].offset - pair[0].offset, 2);
    }
}

#[test]
fn migration_updates_anchor_tags() {
    let mut ws = vec![window(30, 3, "a"), window(30, 3, "b")];
    startlist::stabilize::move_to_next_window(&mut ws, 0);
    assert_eq!(ws[0].competitors.len(), 2);
    assert_eq!(ws[1].competitors.len(), 4);
    assert_eq!(ws[1].competitors[0].name, "a Competitor 2");
    assert_eq!(ws[1].competitors[0].origin, -1);
    startlist::stabilize::move_to_prev_window(&mut ws, 1);
    assert_eq!(ws[0].competitors.len(), 3);
    assert_eq!(ws[1].competitors.len(), 3);
    assert_eq!(ws[0].competitors[2].name, "a Competitor 2");
    assert_eq!(ws[0].competitors[2].origin, 0);
}

#[test]
fn max_diff_between_extreme_windows() {
    // spacings 15 and 2: the spread is exactly 13
    let ws = vec![window(30, 2, "a"), window(30, 15, "b")];
    let (num, den) = startlist::spacing::calculate_max_diff(&ws);
    assert!(den > 0);
    assert_eq!(num, 13 * den);
}

#[test]
fn threshold_check_is_exact() {
    let w = window(30, 10, "w");
    assert!(startlist::spacing::window_spacing_at_most(&w, 3));
    assert!(!startlist::spacing::window_spacing_at_most(&w, 2));
    let ws = vec![window(30, 10, "w")];
    assert!(!startlist::spacing::all_spacings_exceed(&ws, 3));
    assert!(startlist::spacing::all_spacings_exceed(&ws, 2));
}

#[test]
fn stabilize_leaves_few_windows_untouched() {
    let mut windows = vec![window(30, 15, "only")];
    let _ = stabilize_windows(&mut windows, 3);
    assert_eq!(windows.len(), 1);
    assert_eq!(windows[0].competitors.len(), 15);
    for (i, c) in windows[0].competitors.iter().enumerate() {
        assert_eq!(c.origin, 0);
        assert_eq!(c.name, format!("only Competitor {}", i));
    }
}

#[test]
fn stabilize_leaves_stable_layout_unchanged() {
    // every spacing already exceeds the threshold: no candidate pair, no move
    let mut windows = vec![window(30, 2, "a"), window(30, 3, "b")];
    let converged = stabilize_windows(&mut windows, 2);
    assert!(converged);
    assert_eq!(windows[0].competitors.len(), 2);
    assert_eq!(windows[1].competitors.len(), 3);
    for w in &windows {
        for c in &w.competitors {
            assert_eq!(c.origin, 0);
        }
    }
}

#[test]
fn calculate_spacing_of_window() {
    let w = window(30, 4, "w");
    assert_eq!(w.calculate_spacing(), (30, 4));
    let empty = window(30, 0, "w");
    assert_eq!(empty.calculate_spacing(), (30, 1));
}

use iroh_esp32::display::{Screen, MAX_LINES};

fn lines(texts: &[&str]) -> Vec<String> {
    texts.iter().map(|t| t.to_string()).collect()
}

fn drawn(screen: &Screen, texts: &[&str]) -> Vec<(usize, i32, i32, Option<String>)> {
    let redraw = screen.plan(&lines(texts));
    redraw.updates.into_iter().map(|u| (u.index, u.top, u.baseline, u.text)).collect()
}

#[test]
fn a_fresh_screen_draws_everything() {
    let screen = Screen::new();
    assert_eq!(
        drawn(&screen, &["a", "b"]),
        vec![(0, 0, 14, Some("a".to_string())), (1, 16, 30, Some("b".to_string()))],
    );
    assert_eq!(drawn(&screen, &[]), vec![]);
}

#[test]
fn only_changes_are_drawn() {
    let mut screen = Screen::new();
    screen.commit(lines(&["a", "b", "c"]));
    assert_eq!(drawn(&screen, &["a", "b", "c"]), vec![]);
    assert_eq!(drawn(&screen, &["a", "x", "c"]), vec![(1, 16, 30, Some("x".to_string()))]);
    assert_eq!(drawn(&screen, &["a"]), vec![(1, 16, 30, None), (2, 32, 46, None)]);
    assert_eq!(drawn(&screen, &["a", "b", "c", "d"]), vec![(3, 48, 62, Some("d".to_string()))]);
}

#[test]
fn a_redraw_that_failed_is_drawn_again() {
    let mut screen = Screen::new();
    let redraw = screen.plan(&lines(&["a"]));
    assert_eq!(redraw.updates.len(), 1);
    assert_eq!(drawn(&screen, &["a"]).len(), 1);
    screen.commit(redraw.shown);
    assert_eq!(drawn(&screen, &["a"]).len(), 0);
}

#[test]
fn the_panel_holds_eight_lines() {
    let many: Vec<String> = (0..12).map(|n| n.to_string()).collect();
    let redraw = Screen::new().plan(&many);
    assert_eq!(redraw.updates.len(), MAX_LINES);
    assert_eq!(redraw.shown, many[..8].to_vec());
    assert_eq!(redraw.updates[7].baseline, 126);
}

#[test]
fn redrawing_leaves_the_new_lines() {
    let before = ["a", "b", "c"];
    let after = ["a", "", "y", "z"];
    let mut screen = Screen::new();
    screen.commit(lines(&before));
    let mut rows: Vec<Option<String>> = vec![None; MAX_LINES];
    for (row, text) in before.iter().enumerate() {
        rows[row] = Some(text.to_string());
    }
    for update in screen.plan(&lines(&after)).updates {
        rows[update.index] = update.text;
    }
    let expected: Vec<Option<String>> =
        (0..MAX_LINES).map(|row| after.get(row).map(|t| t.to_string())).collect();
    assert_eq!(rows, expected);
}

use i3_tmux_integration::layout::{layout, layout_at, Container, Layout, LayoutError, Parsed};

fn pane_id(l: &Layout) -> u64 {
    match l.contains() {
        Container::Pane(id) => *id,
        other => panic!("expected a pane, got {:?}", other),
    }
}

fn geometry(l: &Layout) -> (u64, u64, u64, u64) {
    (l.width(), l.height(), l.xoff(), l.yoff())
}

#[test]
fn single_pane_layout() {
    let l = Layout::parse("80x24,0,0,1").unwrap();
    assert_eq!(geometry(&l), (80, 24, 0, 0));
    assert_eq!(pane_id(&l), 1);
}

#[test]
fn left_right_layout() {
    let l = Layout::parse("159x48,0,0{79x48,0,0,1,79x48,80,0,2}").unwrap();
    assert_eq!(geometry(&l), (159, 48, 0, 0));
    match l.contains() {
        Container::LeftRightLayout(cells) => {
            assert_eq!(cells.len(), 2);
            assert_eq!(geometry(&cells[0]), (79, 48, 0, 0));
            assert_eq!(pane_id(&cells[0]), 1);
            assert_eq!(geometry(&cells[1]), (79, 48, 80, 0));
            assert_eq!(pane_id(&cells[1]), 2);
        }
        other => panic!("expected left/right, got {:?}", other),
    }
}

#[test]
fn nested_top_down_layout() {
    let l = Layout::parse("80x24,0,0[80x12,0,0,3,80x11,0,13{40x11,0,13,4,39x11,41,13,5}]").unwrap();
    match l.contains() {
        Container::TopDownLayout(rows) => {
            assert_eq!(rows.len(), 2);
            assert_eq!(pane_id(&rows[0]), 3);
            assert_eq!(geometry(&rows[1]), (80, 11, 0, 13));
            match rows[1].contains() {
                Container::LeftRightLayout(cols) => {
                    assert_eq!(cols.len(), 2);
                    assert_eq!(pane_id(&cols[0]), 4);
                    assert_eq!(geometry(&cols[1]), (39, 11, 41, 13));
                    assert_eq!(pane_id(&cols[1]), 5);
                }
                other => panic!("expected left/right, got {:?}", other),
            }
        }
        other => panic!("expected top/down, got {:?}", other),
    }
}

#[test]
fn layout_reports_consumed_length_and_ignores_the_rest() {
    match layout("80x24,0,0,5trailing") {
        Parsed::Done(n, l) => {
            assert_eq!(n, 11);
            assert_eq!(pane_id(&l), 5);
        }
        other => panic!("unexpected {:?}", other),
    }
    assert_eq!(pane_id(&Layout::parse("80x24,0,0,5]]").unwrap()), 5);
}

#[test]
fn layout_errors() {
    assert_eq!(Layout::parse("x").unwrap_err(), LayoutError::Digit);
    assert_eq!(Layout::parse("80y24,0,0,1").unwrap_err(), LayoutError::Tag);
    assert_eq!(Layout::parse("80x24,0,0;1").unwrap_err(), LayoutError::Alt);
    assert_eq!(Layout::parse("99999999999999999999x1,0,0,1").unwrap_err(), LayoutError::MapRes);
    assert_eq!(Layout::parse("80x24,0,0,x").unwrap_err(), LayoutError::Alt);
    assert_eq!(Layout::parse("80x24,0,0{").unwrap_err(), LayoutError::Alt);
    assert_eq!(Layout::parse("80x24,0,0{1x1,0,0,1;").unwrap_err(), LayoutError::Alt);
    assert_eq!(Layout::parse("80x24,0,0{1x1,0,0,1,}").unwrap_err(), LayoutError::Alt);
    assert_eq!(Layout::parse("80x24,0,0{1x1,0,0,1]").unwrap_err(), LayoutError::Alt);
}

#[test]
fn layout_incomplete_inputs() {
    assert!(matches!(layout(""), Parsed::Incomplete));
    assert!(matches!(layout("80"), Parsed::Incomplete));
    assert!(matches!(layout("80x24,0,0"), Parsed::Incomplete));
    assert!(matches!(layout("80x24,0,0,"), Parsed::Incomplete));
    assert!(matches!(layout("80x24,0,0{1x1,0,0,1"), Parsed::Incomplete));
    assert!(matches!(layout("80x24,0,0[1x1,0,0,1,2x2,0,0,2"), Parsed::Incomplete));
}

#[test]
fn list_stops_before_a_separator_without_a_cell() {
    // The list ends at the ',' that no whole cell follows; the closing
    // bracket is then expected there.
    match layout_at(b"1x1,0,0{1x1,0,0,1,zz}", 0) {
        Parsed::Error(e) => assert_eq!(e, LayoutError::Alt),
        other => panic!("unexpected {:?}", other),
    }
    match layout_at(b"..1x1,0,0,9", 2) {
        Parsed::Done(n, l) => {
            assert_eq!(n, 11);
            assert_eq!(pane_id(&l), 9);
        }
        other => panic!("unexpected {:?}", other),
    }
}

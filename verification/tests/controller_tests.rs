use maze3d::controller::Controller;
use maze3d::render::classify_cell;
use maze3d::render::CellDraw;
use maze3d::grid::Grid;

#[test]
fn pitch_clamps_on_a_violent_swipe() {
    // starting yaw 1.18 rad, pitch level; one frame of 16 ms with a
    // vertical mouse delta of +10000 drives pitch to the lower clamp
    let mut c = Controller::new();
    assert_eq!(c.yaw_urad, 1_180_000);
    assert_eq!(c.pitch_urad, 0);
    c.apply_mouse(0, 10_000, 16_000);
    assert_eq!(c.pitch_urad, -1_500_000);
    assert_eq!(c.yaw_urad, 1_180_000);
}

#[test]
fn pitch_stays_in_band_over_any_sequence() {
    let mut c = Controller::new();
    let deltas: [(i64, i64); 8] = [
        (5, 300),
        (-40, -100000),
        (0, i64::MAX),
        (17, i64::MIN),
        (-3, 55),
        (9999, -9999),
        (0, 0),
        (1, 1),
    ];
    for (dx, dy) in deltas {
        c.apply_mouse(dx, dy, 16_000);
        assert!(-1_500_000 <= c.pitch_urad && c.pitch_urad <= 1_500_000);
    }
}

#[test]
fn small_turns_accumulate_exactly() {
    let mut c = Controller::new();
    // 100 px over 20 ms: 100 * 20000 / 10 = 200_000 microradians
    c.apply_mouse(100, -50, 20_000);
    assert_eq!(c.yaw_urad, 1_180_000 + 200_000);
    assert_eq!(c.pitch_urad, 100_000);
    // rounding is toward zero: 3 * 3 / 10 = 0
    let mut d = Controller::new();
    d.apply_mouse(3, 3, 3);
    assert_eq!(d.yaw_urad, 1_180_000);
    assert_eq!(d.pitch_urad, 0);
}

#[test]
fn cells_classify_for_drawing() {
    let mut g = Grid::new(2);
    // logical start (0,0) sits at grid (1,1); goal (1,1) at grid (3,3)
    assert_eq!(classify_cell(&g, 0, 0, (0, 0), (1, 1)), CellDraw::Wall);
    assert_eq!(classify_cell(&g, 1, 1, (0, 0), (1, 1)), CellDraw::Start);
    assert_eq!(classify_cell(&g, 3, 3, (0, 0), (1, 1)), CellDraw::Goal);
    assert_eq!(classify_cell(&g, 1, 3, (0, 0), (1, 1)), CellDraw::Nothing);
    // a wall takes precedence over the marks
    g.set(1, 1, false);
    assert_eq!(classify_cell(&g, 1, 1, (0, 0), (1, 1)), CellDraw::Wall);
}

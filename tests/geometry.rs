use tailchart::geometry::{
    center_subrect, rect_fit_inside, rect_resize, warn_rect, AnchoredPosition, Direction, Gravity,
    Rect, SaturatingAddExt, SaturatingSubExt,
};

fn rect(x: u16, y: u16, width: u16, height: u16) -> Rect {
    Rect { x, y, width, height }
}

#[test]
fn center_subrect_of_frame() {
    assert_eq!(center_subrect(rect(0, 0, 100, 50), 8, 10), rect(10, 5, 80, 40));
    assert_eq!(center_subrect(rect(10, 10, 10, 10), 7, 10), rect(12, 12, 7, 7));
}

#[test]
fn resize_keeps_named_corner() {
    let r = rect(10, 10, 100, 50);
    assert_eq!(rect_resize(r, Gravity::top_left(), 20, 5), rect(10, 10, 20, 5));
    assert_eq!(rect_resize(r, Gravity::top_right(), 20, 5), rect(90, 10, 20, 5));
    assert_eq!(rect_resize(r, Gravity { right: true, bottom: true }, 200, 5), rect(10, 55, 100, 5));
}

#[test]
fn fit_inside_moves_then_cuts() {
    let parent = rect(10, 10, 50, 20);
    assert_eq!(rect_fit_inside(parent, rect(55, 0, 10, 5)), rect(50, 10, 10, 5));
    assert_eq!(rect_fit_inside(parent, rect(0, 0, 80, 30)), rect(10, 10, 50, 20));
}

#[test]
fn anchored_position_rect() {
    let pos = AnchoredPosition { anchor: Gravity::top_right(), x_displace: 5, y_displace: 2 };
    assert_eq!(pos.to_rect(20, 10, rect(0, 0, 100, 40)), rect(75, 2, 20, 10));
}

#[test]
fn move_towards_anchor_shrinks_displacement() {
    let mut pos = AnchoredPosition { anchor: Gravity::top_right(), x_displace: 3, y_displace: 0 };
    pos.move_towards(Direction::Right, 5);
    assert_eq!(pos.x_displace, 0);
    pos.move_towards(Direction::Left, 5);
    assert_eq!(pos.x_displace, 5);
    pos.move_towards(Direction::Bottom, 4);
    assert_eq!(pos.y_displace, 4);
    pos.move_towards(Direction::Top, 1);
    assert_eq!(pos.y_displace, 3);
}

#[test]
fn anchor_by_nearest_compares_margins() {
    let mut pos = AnchoredPosition { anchor: Gravity::top_left(), x_displace: 70, y_displace: 1 };
    pos.anchor_by_nearest(20, 10, rect(0, 0, 100, 40));
    assert!(!pos.anchor.right);
    assert_eq!(pos.x_displace, 70);
    assert!(pos.anchor.bottom);
    assert_eq!(pos.y_displace, 29);
}

#[test]
fn gravity_move_to() {
    let g = Gravity::top_left();
    assert_eq!(g.move_to(Direction::Right), Gravity::top_right());
    assert_eq!(g.move_to(Direction::Bottom), Gravity { right: false, bottom: true });
    assert_eq!(Gravity::top_right().move_to(Direction::Left), g);
}

#[test]
fn warn_rect_sizes() {
    let frame = rect(0, 0, 200, 60);
    assert_eq!(warn_rect(frame, 3, 30), rect(163, 3, 32, 5));
    assert_eq!(warn_rect(frame, 3, 100), rect(119, 3, 76, 5));
    assert_eq!(warn_rect(rect(0, 0, 4, 4), 3, 30), rect(0, 0, 0, 0));
}

#[test]
fn saturating_assign() {
    let mut a: u8 = 250;
    a.saturating_add_assign(10);
    assert_eq!(a, 255);
    a.saturating_sub_assign(100);
    assert_eq!(a, 155);
    let mut b: u16 = 3;
    b.saturating_sub_assign(5);
    assert_eq!(b, 0);
    b.saturating_add_assign(u16::MAX);
    assert_eq!(b, u16::MAX);
}

#[test]
fn rect_edges_saturate() {
    let r = rect(u16::MAX - 1, 0, 10, 3);
    assert_eq!(r.right(), u16::MAX);
    assert_eq!(r.bottom(), 3);
    assert_eq!(rect(10, 10, 30, 20).inner(5, 3), rect(15, 13, 20, 14));
}

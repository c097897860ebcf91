use pixel_snapper::error::PixelSnapperError;
use pixel_snapper::walk::{Position, Reach, Walker};

fn inside(start: usize, end: usize, target: usize) -> Reach {
    Reach::Inside { start, end, target }
}

#[test]
fn a_walk_needs_levels() {
    match Walker::start(&vec![]) {
        Err(PixelSnapperError::ProcessingError(words)) => {
            assert_eq!(words, "Cannot walk on empty profile")
        }
        other => panic!("{:?}", other),
    }
    assert_eq!(Walker::start(&vec![0]).unwrap().cuts, vec![0]);
}

#[test]
fn a_walk_cuts_at_strong_edges() {
    let levels = vec![0, 0, 0, 9, 0, 0, 0, 1, 0, 0];
    let mut walker = Walker::start(&levels).unwrap();
    assert_eq!(walker.advance(&levels, 10, inside(2, 6, 4), 2), Position::Edge(3));
    assert_eq!(walker.advance(&levels, 10, inside(5, 9, 7), 2), Position::Target);
    assert_eq!(walker.advance(&levels, 10, inside(8, 8, 9), 2), Position::Target);
    assert_eq!(walker.advance(&levels, 10, Reach::End, 2), Position::Done);
    assert_eq!(walker.cuts, vec![0, 3, 7, 10]);
}

#[test]
fn an_edge_at_the_threshold_is_not_strong() {
    let levels = vec![0, 0, 0, 2, 0, 0];
    let mut walker = Walker::start(&levels).unwrap();
    assert_eq!(walker.advance(&levels, 6, inside(1, 5, 2), 2), Position::Target);
    assert_eq!(walker.cuts, vec![0, 2]);
}

#[test]
fn a_walk_to_the_end_divides_the_axis() {
    let levels = vec![0, 0, 5, 0, 0, 0, 0, 5, 0];
    let mut walker = Walker::start(&levels).unwrap();
    for reach in [inside(1, 4, 3), inside(3, 6, 5), inside(6, 9, 8), Reach::End] {
        walker.advance(&levels, 9, reach, 1);
    }
    assert_eq!(walker.cuts, vec![0, 2, 5, 7, 9]);
}

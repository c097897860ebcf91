use pixel_snapper::config::ResampleMode;
use pixel_snapper::cuts::{snap_grid_size_cuts, Guide};
use pixel_snapper::error::PixelSnapperError;
use pixel_snapper::picture::{Image, Pixel};
use pixel_snapper::resample::{
    cell_between, find_heaviest, find_winner, look_around, resample, resample_center,
    resample_majority, Cell,
};

fn pixel(n: u8) -> Pixel {
    Pixel { r: n, g: 0, b: 0, a: 255 }
}

const CLEAR: Pixel = Pixel { r: 0, g: 0, b: 0, a: 0 };

fn image(width: u32, height: u32, levels: &[u8]) -> Image {
    Image { width, height, pixels: levels.iter().map(|&n| pixel(n)).collect() }
}

#[test]
fn cells_are_clipped_to_the_image() {
    let picture = image(3, 2, &[1, 2, 3, 4, 5, 6]);
    let found = cell_between(&picture, &vec![1, 9], &vec![0, 1, 7], 0, 1);
    assert_eq!(found, Cell { left: 1, right: 3, top: 1, bottom: 2 });
    assert_eq!(found.list_pixels(&picture), vec![pixel(5), pixel(6)]);
    let beyond = cell_between(&picture, &vec![3, 9], &vec![0, 1], 0, 0);
    assert!(beyond.has_no_pixels());
    assert!(beyond.list_pixels(&picture).is_empty());
}

#[test]
fn pixels_of_a_cell_row_by_row() {
    let picture = image(3, 3, &[1, 2, 3, 4, 5, 6, 7, 8, 9]);
    let cell = Cell { left: 1, right: 3, top: 0, bottom: 3 };
    let list: Vec<u8> = cell.list_pixels(&picture).iter().map(|p| p.r).collect();
    assert_eq!(list, vec![2, 3, 5, 6, 8, 9]);
}

#[test]
fn the_most_frequent_wins_and_the_lowest_of_several() {
    assert_eq!(find_winner(&vec![pixel(5), pixel(9), pixel(9)]), pixel(9));
    assert_eq!(find_winner(&vec![pixel(9), pixel(5), pixel(9), pixel(5)]), pixel(5));
    assert_eq!(find_winner(&vec![]), CLEAR);
    let faint = Pixel { a: 1, ..pixel(7) };
    assert_eq!(find_winner(&vec![pixel(7), faint]), faint);
}

#[test]
fn majority_of_a_cell() {
    let picture = image(2, 2, &[4, 4, 8, 4]);
    let cell = Cell { left: 0, right: 2, top: 0, bottom: 2 };
    assert_eq!(resample_majority(&picture, &cell), pixel(4));
    let nothing = Cell { left: 1, right: 1, top: 0, bottom: 2 };
    assert_eq!(resample_majority(&picture, &nothing), CLEAR);
}

#[test]
fn the_middle_of_a_cell() {
    let mut picture = image(4, 1, &[1, 2, 3, 3]);
    let cell = Cell { left: 0, right: 4, top: 0, bottom: 1 };
    assert_eq!(resample_center(&picture, &cell), pixel(2));
    picture.pixels[1].a = 0;
    assert_eq!(resample_center(&picture, &cell), pixel(3));
}

#[test]
fn around_a_pixel_at_the_edge() {
    let picture = image(3, 2, &[1, 2, 3, 4, 5, 6]);
    let corner = look_around(&picture, 0, 0);
    assert_eq!(corner.left, pixel(1));
    assert_eq!(corner.up, pixel(1));
    assert_eq!(corner.right, pixel(2));
    assert_eq!(corner.down, pixel(4));
    let other = look_around(&picture, 2, 1);
    assert_eq!(other.right, pixel(6));
    assert_eq!(other.down, pixel(6));
    assert_eq!(other.left, pixel(5));
    assert_eq!(other.up, pixel(3));
}

#[test]
fn the_heaviest_and_the_lowest_of_several() {
    let list = vec![pixel(7), pixel(3), pixel(5)];
    assert_eq!(find_heaviest(&list, &vec![1, 2, 9]), pixel(5));
    assert_eq!(find_heaviest(&list, &vec![9, 2, 9]), pixel(5));
    let turned = vec![pixel(5), pixel(7), pixel(3)];
    assert_eq!(find_heaviest(&turned, &vec![9, 9, 2]), pixel(5));
    assert_eq!(find_heaviest(&vec![], &vec![]), CLEAR);
}

#[test]
fn an_image_is_painted_cell_by_cell() {
    let picture = image(4, 2, &[1, 1, 2, 9, 1, 3, 2, 2]);
    let painted =
        resample(&picture, &vec![0, 2, 4], &vec![0, 2], ResampleMode::Majority, &vec![]).unwrap();
    assert_eq!((painted.width, painted.height), (2, 1));
    assert_eq!(painted.pixels, vec![pixel(1), pixel(2)]);
    let centred =
        resample(&picture, &vec![0, 3, 4], &vec![0, 1, 2], ResampleMode::Center, &vec![]).unwrap();
    assert_eq!(centred.pixels, vec![pixel(1), pixel(9), pixel(3), pixel(2)]);
}

#[test]
fn pixels_worked_out_beforehand_are_used() {
    let picture = image(2, 2, &[1, 2, 3, 4]);
    let given = vec![pixel(10), pixel(20), pixel(30), pixel(40)];
    for mode in [ResampleMode::Mean, ResampleMode::EdgeAware, ResampleMode::PaletteAware] {
        let painted = resample(&picture, &vec![0, 2, 9], &vec![0, 1, 2], mode, &given).unwrap();
        assert_eq!(painted.pixels, vec![pixel(10), CLEAR, pixel(30), CLEAR]);
    }
}

#[test]
fn too_few_cuts_are_refused() {
    let picture = image(2, 2, &[1, 2, 3, 4]);
    for (cols, rows) in [(vec![0], vec![0, 2]), (vec![0, 2], vec![])] {
        match resample(&picture, &cols, &rows, ResampleMode::Majority, &vec![]) {
            Err(PixelSnapperError::ProcessingError(words)) => {
                assert_eq!(words, "Insufficient grid cuts for resampling")
            }
            other => panic!("{:?}", other),
        }
    }
}

#[test]
fn the_true_grid_of_an_enlarged_image_gives_it_back() {
    let small = image(3, 2, &[1, 2, 3, 4, 5, 6]);
    for n in 1usize..5 {
        let mut levels = Vec::new();
        for y in 0..2 * n {
            for x in 0..3 * n {
                levels.push(small.get(x / n, y / n).r);
            }
        }
        let big = image(3 * n as u32, 2 * n as u32, &levels);
        let cols: Vec<usize> = (0..=3).map(|i| i * n).collect();
        let rows: Vec<usize> = (0..=2).map(|i| i * n).collect();
        for mode in [ResampleMode::Majority, ResampleMode::Center] {
            let painted = resample(&big, &cols, &rows, mode, &vec![]).unwrap();
            assert_eq!((painted.width, painted.height), (3, 2));
            assert_eq!(painted.pixels, small.pixels);
        }
    }
}

#[test]
fn a_grid_of_a_given_size_gives_an_image_of_that_size() {
    let picture = image(6, 6, &[8; 36]);
    let guide = |at: isize| Guide { lo: at - 2, hi: at + 2, nearest: at };
    let cols = snap_grid_size_cuts(&vec![0; 6], 6, 3, &vec![guide(2), guide(4)], 1);
    let rows = snap_grid_size_cuts(&vec![0; 6], 6, 2, &vec![guide(3)], 1);
    let painted = resample(&picture, &cols, &rows, ResampleMode::Majority, &vec![]).unwrap();
    assert_eq!((painted.width, painted.height), (3, 2));
}

#[test]
fn a_plain_image_stays_plain() {
    let picture = image(6, 6, &[8; 36]);
    for mode in [ResampleMode::Majority, ResampleMode::Center] {
        let painted = resample(&picture, &vec![0, 3, 6], &vec![0, 3, 6], mode, &vec![]).unwrap();
        assert_eq!(painted.pixels, vec![pixel(8); 4]);
    }
}

#[test]
fn the_heaviest_by_votes_is_the_winner() {
    let cell = vec![pixel(9), pixel(5), pixel(9), pixel(5), pixel(2)];
    let list = vec![pixel(9), pixel(2), pixel(5)];
    assert_eq!(find_heaviest(&list, &vec![2, 1, 2]), find_winner(&cell));
    // Only the order of the weights matters.
    assert_eq!(find_heaviest(&list, &vec![70, 30, 70]), find_winner(&cell));
}

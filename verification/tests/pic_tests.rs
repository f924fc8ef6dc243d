use tetrbot::colr::{Rgba, TetrColr};
use tetrbot::pic::{
    draw_img_bits, draw_rect, draw_x_line, draw_y_line, get_current_pic, get_current_pic_ok, get_len,
    get_len_ok, same_pixel, Image,
};

const BLACK: Rgba = Rgba([0, 0, 0, 255]);
const WHITE: Rgba = Rgba([0xff, 0xff, 0xff, 0xff]);
const RED: Rgba = Rgba([227, 43, 53, 255]);
const PURPLE: Rgba = Rgba([206, 58, 192, 255]);
const CYAN: Rgba = Rgba([41, 227, 158, 255]);
const GREEN: Rgba = Rgba([157, 227, 41, 255]);
const BLUE: Rgba = Rgba([83, 58, 206, 255]);
const YELLOW: Rgba = Rgba([227, 190, 41, 255]);
const ORANGE: Rgba = Rgba([227, 112, 40, 255]);

fn image(w: u32, h: u32) -> Image {
    Image::new(w, h, vec![BLACK; (w * h) as usize]).unwrap()
}

fn paint(img: &mut Image, x0: u32, y0: u32, x1: u32, y1: u32, p: Rgba) {
    for x in x0..x1 {
        for y in y0..y1 {
            img.put_pixel(x, y, p);
        }
    }
}

/// Paints cell (row i, column j) of a grid with cells of side 9 every 10 pixels, whose top-left
/// cell is centred on (5, 5).
fn paint_cell(img: &mut Image, i: u32, j: u32, p: Rgba) {
    paint(img, j * 10 + 1, i * 10 + 1, j * 10 + 10, i * 10 + 10, p);
}

#[test]
fn image_checks_its_size() {
    assert!(Image::new(2, 3, vec![BLACK; 6]).is_some());
    assert!(Image::new(2, 3, vec![BLACK; 5]).is_none());
}

#[test]
fn pixel_read_gives_back_what_was_written() {
    let mut img = image(4, 3);
    img.put_pixel(2, 1, RED);
    assert_eq!(img.get_pixel(2, 1), RED);
    assert_eq!(img.get_pixel(1, 2), BLACK);
    assert_eq!(img.get_pixel_checked(3, 2), Some(BLACK));
    assert_eq!(img.get_pixel_checked(4, 0), None);
    assert_eq!(img.get_pixel_checked(0, 3), None);
    assert_eq!(img.pixels()[1 * 4 + 2], RED);
    assert!(same_pixel(&img.get_pixel(2, 1), &RED));
    assert!(!same_pixel(&img.get_pixel(2, 1), &Rgba([227, 43, 53, 0])));
}

#[test]
fn rect_covers_thirteen_by_thirteen() {
    let mut img = image(30, 30);
    draw_rect(&mut img, 10, 12, WHITE);
    assert_eq!(img.get_pixel(4, 6), WHITE);
    assert_eq!(img.get_pixel(16, 18), WHITE);
    assert_eq!(img.get_pixel(3, 6), BLACK);
    assert_eq!(img.get_pixel(17, 12), BLACK);
    assert_eq!(img.get_pixel(10, 19), BLACK);
    let white = img.pixels().iter().filter(|p| **p == WHITE).count();
    assert_eq!(white, 13 * 13);
}

#[test]
fn lines_cover_listed_columns_or_rows() {
    let mut img = image(30, 30);
    draw_x_line(&mut img, &vec![2, 5], 8, WHITE);
    assert_eq!(img.get_pixel(2, 2), WHITE);
    assert_eq!(img.get_pixel(5, 14), WHITE);
    assert_eq!(img.get_pixel(3, 8), BLACK);
    assert_eq!(img.get_pixel(2, 15), BLACK);
    let mut img = image(30, 30);
    draw_y_line(&mut img, 8, &vec![0, 29], RED);
    assert_eq!(img.get_pixel(2, 0), RED);
    assert_eq!(img.get_pixel(14, 29), RED);
    assert_eq!(img.get_pixel(8, 1), BLACK);
    assert_eq!(img.get_pixel(15, 29), BLACK);
}

#[test]
fn length_from_two_probed_cells() {
    let mut img = image(100, 210);
    paint_cell(&mut img, 19, 0, RED);
    paint_cell(&mut img, 13, 0, RED);
    assert!(get_len_ok(&img, 5, 195));
    let (found, warnings) = get_len(&img, 5, 195);
    assert_eq!(found, ((5, 5), 10));
    assert_eq!(warnings, 0);
}

#[test]
fn length_probe_outside_the_image_is_refused() {
    let img = image(100, 210);
    assert!(!get_len_ok(&img, 100, 5));
    assert!(!get_len_ok(&img, -1, 5));
}

#[test]
fn lopsided_cell_is_reported() {
    let mut img = image(100, 210);
    // a cell 11 wide and 8 high at the bottom: sides differ by 3
    paint(&mut img, 1, 191, 12, 199, RED);
    paint_cell(&mut img, 13, 0, RED);
    assert!(get_len_ok(&img, 5, 195));
    let (found, warnings) = get_len(&img, 5, 195);
    assert_eq!(found, ((6, 23), 9));
    assert_eq!(warnings, 1);
}

#[test]
fn too_lopsided_cell_is_refused() {
    let mut img = image(100, 210);
    paint(&mut img, 1, 191, 14, 200, RED);
    assert!(!get_len_ok(&img, 5, 195));
}

/// A screen with the falling T in the top rows, five filled cells in the bottom row, and a
/// preview of red, cyan, green, blue and yellow.
fn game_screen() -> Image {
    let mut img = image(160, 210);
    paint_cell(&mut img, 0, 4, PURPLE);
    paint_cell(&mut img, 1, 3, PURPLE);
    paint_cell(&mut img, 1, 4, PURPLE);
    paint_cell(&mut img, 1, 5, PURPLE);
    for j in 0..5 {
        paint_cell(&mut img, 19, j, ORANGE);
    }
    paint_cell(&mut img, 18, 0, ORANGE);
    // preview slots: 29 pixels high from row 30, columns 115 to 144
    let colours = [RED, CYAN, GREEN, BLUE, YELLOW];
    for (k, c) in colours.iter().enumerate() {
        let y0 = 30 + 29 * k as u32;
        paint(&mut img, 115, y0, 145, y0 + 29, *c);
    }
    img
}

#[test]
fn reads_playfield_and_preview() {
    let img = game_screen();
    assert!(get_current_pic_ok(&img, 5, 5, 10));
    let (bits, next) = get_current_pic(&img, 5, 5, 10).unwrap();
    assert_eq!(bits.len(), 20);
    assert!(bits.iter().all(|r| r.len() == 10));
    // the falling piece is not part of the playfield
    assert!(bits[0].iter().all(|b| !b));
    assert!(bits[1].iter().all(|b| !b));
    assert_eq!(bits[19], vec![true, true, true, true, true, false, false, false, false, false]);
    assert_eq!(bits[18][0], true);
    assert_eq!(bits[18][1], false);
    let filled = bits.iter().flatten().filter(|b| **b).count();
    assert_eq!(filled, 6);
    assert_eq!(
        next,
        vec![TetrColr::Purple, TetrColr::Red, TetrColr::Cyan, TetrColr::Green, TetrColr::Blue, TetrColr::Yellow]
    );
}

#[test]
fn no_reading_without_a_falling_piece() {
    let mut img = game_screen();
    paint_cell(&mut img, 1, 5, BLACK);
    assert!(get_current_pic_ok(&img, 5, 5, 10));
    assert!(get_current_pic(&img, 5, 5, 10).is_none());
}

#[test]
fn preview_tie_goes_to_the_later_colour() {
    let mut img = game_screen();
    // first slot: left sample column red, others black; middle column cyan
    paint(&mut img, 115, 30, 145, 59, BLACK);
    paint(&mut img, 120, 30, 125, 59, RED);
    paint(&mut img, 127, 30, 132, 59, CYAN);
    let (_, next) = get_current_pic(&img, 5, 5, 10).unwrap();
    assert_eq!(next[1], TetrColr::Cyan);
}

#[test]
fn empty_preview_slot_is_refused() {
    let mut img = game_screen();
    paint(&mut img, 115, 30, 145, 59, BLACK);
    assert!(!get_current_pic_ok(&img, 5, 5, 10));
}

#[test]
fn marks_empty_cells() {
    let img = image(110, 210);
    let mut bits = vec![vec![true; 10]; 20];
    bits[3][2] = false;
    let out = draw_img_bits(img, &bits, 5, 5, 10);
    assert_eq!(out.get_pixel(25, 35), WHITE);
    assert_eq!(out.get_pixel(19, 29), WHITE);
    assert_eq!(out.get_pixel(31, 41), WHITE);
    assert_eq!(out.get_pixel(32, 35), BLACK);
    assert_eq!(out.get_pixel(5, 5), BLACK);
    let white = out.pixels().iter().filter(|p| **p == WHITE).count();
    assert_eq!(white, 13 * 13);
}

#[test]
fn empty_lines_on_an_empty_image() {
    let mut img = Image::new(0, 5, vec![]).unwrap();
    draw_x_line(&mut img, &vec![], 0, WHITE);
    assert_eq!((img.width(), img.height()), (0, 5));
    let mut img = Image::new(5, 0, vec![]).unwrap();
    draw_y_line(&mut img, 0, &vec![], WHITE);
    assert_eq!((img.width(), img.height()), (5, 0));
}

#[test]
fn new_image_reads_pixels_row_by_row() {
    let img = Image::new(2, 2, vec![BLACK, WHITE, RED, BLACK]).unwrap();
    assert_eq!(img.get_pixel(1, 0), WHITE);
    assert_eq!(img.get_pixel(0, 1), RED);
}

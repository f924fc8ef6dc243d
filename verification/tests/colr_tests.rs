use tetrbot::colr::{color_entry, get_color, is_black, Rgba, TetrColr, COLR_CNT};

#[test]
fn color_test() {
    let t = Rgba([227, 190, 41, 255]);
    assert_eq!(get_color(&t).unwrap(), TetrColr::Yellow);

    let t = Rgba([206, 59, 192, 255]);
    assert_eq!(get_color(&t).unwrap(), TetrColr::Purple);

    let t = Rgba([227, 45, 53, 255]);
    assert_eq!(get_color(&t).unwrap(), TetrColr::Red);
    let t = Rgba([41, 227, 158, 255]);
    assert_eq!(get_color(&t).unwrap(), TetrColr::Cyan);

    let t = Rgba([83, 58, 207, 255]);
    assert_eq!(get_color(&t).unwrap(), TetrColr::Blue);

    let t = Rgba([155, 227, 41, 255]);
    assert_eq!(get_color(&t).unwrap(), TetrColr::Green);

    let t = Rgba([223, 112, 40, 255]);
    assert_eq!(get_color(&t).unwrap(), TetrColr::Orange);

    let t = Rgba([1, 2, 1, 255]);
    assert_eq!(get_color(&t).unwrap(), TetrColr::Black);

    for i in 0..COLR_CNT {
        assert_eq!(i, color_entry(i).0 as usize);
    }
}

#[test]
fn centres_classify_as_their_colour() {
    for i in 0..COLR_CNT {
        let (c, centre) = color_entry(i);
        assert_eq!(get_color(&centre), Some(c));
    }
}

#[test]
fn alpha_channel_is_ignored() {
    assert_eq!(get_color(&Rgba([227, 43, 53, 0])), Some(TetrColr::Red));
}

#[test]
fn tie_goes_to_earlier_entry() {
    // Equally far (squared distance 19809) from the centres of cyan and black: cyan comes first.
    assert_eq!(get_color(&Rgba([18, 123, 66, 255])), Some(TetrColr::Cyan));
    // One step nearer black.
    assert_eq!(get_color(&Rgba([17, 123, 66, 255])), Some(TetrColr::Black));
}

#[test]
fn is_black_matches_classification() {
    assert!(is_black(&Rgba([0, 0, 0, 255])));
    assert!(is_black(&Rgba([20, 30, 10, 255])));
    assert!(!is_black(&Rgba([227, 190, 41, 255])));
    assert!(!is_black(&Rgba([255, 255, 255, 255])));
}

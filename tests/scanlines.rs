use rt::{assemble_rows, pixel_seed, scanline_order, AssembleError};

fn msg(j: usize, s: &str) -> (usize, Vec<u8>) {
    (j, s.as_bytes().to_vec())
}

#[test]
fn scanlines_are_handed_out_top_down() {
    assert_eq!(scanline_order(3), vec![2, 1, 0]);
    assert_eq!(scanline_order(1), vec![0]);
    assert_eq!(scanline_order(0), Vec::<usize>::new());
}

#[test]
fn rows_are_assembled_top_row_first() {
    let rows = vec![msg(0, "c\n"), msg(2, "a\n"), msg(1, "bb\n")];
    assert_eq!(assemble_rows(3, rows), Ok(b"a\nbb\nc\n".to_vec()));
}

#[test]
fn delivery_order_does_not_change_the_picture() {
    let orders: [[usize; 4]; 4] = [[0, 1, 2, 3], [3, 2, 1, 0], [2, 0, 3, 1], [1, 3, 0, 2]];
    let texts = ["255 0 0\n", "0 255 0\n", "0 0 255\n", "1 2 3\n"];
    let mut outputs = Vec::new();
    for order in orders.iter() {
        let rows = order.iter().map(|&j| msg(j, texts[j])).collect();
        outputs.push(assemble_rows(4, rows).unwrap());
    }
    for out in outputs.iter() {
        assert_eq!(out, &b"1 2 3\n0 0 255\n0 255 0\n255 0 0\n".to_vec());
    }
}

#[test]
fn no_rows_make_an_empty_picture() {
    assert_eq!(assemble_rows(0, vec![]), Ok(vec![]));
}

#[test]
fn row_out_of_range_is_rejected() {
    let rows = vec![msg(0, "x"), msg(3, "y"), msg(0, "z")];
    assert_eq!(assemble_rows(3, rows), Err(AssembleError::RowOutOfRange { row: 3 }));
}

#[test]
fn repeated_row_is_rejected() {
    let rows = vec![msg(1, "x"), msg(0, "y"), msg(1, "z"), msg(7, "w")];
    assert_eq!(assemble_rows(2, rows), Err(AssembleError::DuplicateRow { row: 1 }));
}

#[test]
fn lowest_missing_row_is_named() {
    let rows = vec![msg(3, "d"), msg(0, "a")];
    assert_eq!(assemble_rows(4, rows), Err(AssembleError::MissingRow { row: 1 }));
}

#[test]
fn pixel_seed_counts_pixels_from_the_bottom_left() {
    assert_eq!(pixel_seed(7, 4, 1, 2), 16);
    assert_eq!(pixel_seed(0, 4, 0, 0), 0);
    assert_eq!(pixel_seed(u64::MAX, 4, 1, 0), 0);
}

#[test]
fn pixel_seeds_differ_within_a_picture() {
    let mut seeds = Vec::new();
    for j in 0..5 {
        for x in 0..7 {
            seeds.push(pixel_seed(u64::MAX - 10, 7, x, j));
        }
    }
    let mut sorted = seeds.clone();
    sorted.sort();
    sorted.dedup();
    assert_eq!(sorted.len(), 35);
}

#[test]
fn ppm_header_names_size_and_depth() {
    assert_eq!(rt::ppm_header(400, 225), b"P3\n400 225\n255\n".to_vec());
    assert_eq!(rt::ppm_header(0, 7), b"P3\n0 7\n255\n".to_vec());
}

#[test]
fn write_color_appends_one_decimal_line() {
    let mut buf = b"x".to_vec();
    rt::write_color(&mut buf, [255, 0, 7]);
    rt::write_color(&mut buf, [10, 99, 100]);
    assert_eq!(buf, b"x255 0 7\n10 99 100\n".to_vec());
}

#[test]
fn push_decimal_has_no_leading_zeros() {
    let mut buf = Vec::new();
    rt::ppm::push_decimal(&mut buf, 0);
    buf.push(b',');
    rt::ppm::push_decimal(&mut buf, 18446744073709551615);
    assert_eq!(buf, b"0,18446744073709551615".to_vec());
}

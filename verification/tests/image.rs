//! Pictures, read back with a decoder of another hand.

use std::io::Cursor;

use coloring_bt_transactions::image::{FaultKind, Ink, Writer, INK, PAPER_8};
use coloring_bt_transactions::truecolour::write_png;

/// Between no ink and full ink, the low end lifted.
fn shade(fraction: f64) -> u8 {
    (fraction.clamp(0.0, 1.0).powf(1.0 / 2.2) * 255.0).round() as u8
}

/// The size and the samples of a picture, row-major, a byte a pixel.
fn decode(bytes: &[u8], ink: Ink) -> (usize, usize, Vec<u8>) {
    let mut reader = png::Decoder::new(Cursor::new(bytes)).read_info().expect("a PNG header");
    {
        let info = reader.info();
        let depth = match ink {
            Ink::Flat => png::BitDepth::One,
            Ink::Weighted | Ink::Palette => png::BitDepth::Eight,
        };
        assert_eq!(info.bit_depth, depth, "the depth the picture was drawn at");
        let (colour, what) = match ink {
            Ink::Flat | Ink::Weighted => (png::ColorType::Grayscale, "one greyscale channel"),
            Ink::Palette => (png::ColorType::Indexed, "an index into PLTE"),
        };
        assert_eq!(info.color_type, colour, "{}", what);
    }
    let mut buf = vec![0u8; reader.output_buffer_size().unwrap()];
    let frame = reader.next_frame(&mut buf).unwrap();
    let (w, h) = (frame.width as usize, frame.height as usize);
    let mut samples = Vec::with_capacity(w * h);
    for y in 0..h {
        let row = &buf[y * frame.line_size..(y + 1) * frame.line_size];
        for x in 0..w {
            samples.push(match ink {
                Ink::Flat => (row[x / 8] >> (7 - x % 8)) & 1,
                Ink::Weighted | Ink::Palette => row[x],
            });
        }
    }
    (w, h, samples)
}

fn write(
    width: usize,
    rows: usize,
    bin: usize,
    colors: &[&[usize]],
) -> Result<Vec<u8>, (FaultKind, String)> {
    let say = |f: coloring_bt_transactions::image::Fault| (f.kind, f.message);
    let mut w = Writer::new(width, rows, bin, Ink::Flat, &vec![]).map_err(say)?;
    let mut bytes = w.take();
    for color in colors {
        for &block in *color {
            w.set(block, 255);
        }
        w.end_transaction().map_err(say)?;
        bytes.extend(w.take());
    }
    bytes.extend(w.finish().map_err(say)?);
    Ok(bytes)
}

fn draw(width: usize, rows: usize, colors: &[&[usize]]) -> Vec<String> {
    binned(width, rows, 1, colors)
}

fn binned(width: usize, rows: usize, bin: usize, colors: &[&[usize]]) -> Vec<String> {
    let bytes = write(width, rows, bin, colors).unwrap();
    let (w, h, samples) = decode(&bytes, Ink::Flat);
    assert_eq!((w, h), (width, rows), "the size the picture was opened for");
    samples
        .chunks(width)
        .map(|row| row.iter().map(|&s| if s == INK { '#' } else { '.' }).collect())
        .collect()
}

fn shaded(
    ink: Ink,
    palette: &Vec<u8>,
    width: usize,
    rows: usize,
    bin: usize,
    colors: &[&[(usize, f64)]],
) -> Vec<u8> {
    let mut w = Writer::new(width, rows, bin, ink, palette).ok().unwrap();
    assert_eq!(w.dimensions(), (width, rows));
    for color in colors {
        for &(block, weight) in *color {
            w.set(block, shade(weight));
        }
        assert!(w.end_transaction().is_ok());
    }
    w.finish().ok().unwrap()
}

fn weighted(width: usize, rows: usize, bin: usize, colors: &[&[(usize, f64)]]) -> Vec<Vec<u8>> {
    let bytes = shaded(Ink::Weighted, &vec![], width, rows, bin, colors);
    let (cols, got, samples) = decode(&bytes, Ink::Weighted);
    assert_eq!((cols, got), (width, rows), "the size it was opened for");
    samples.chunks(width).map(|row| row.to_vec()).collect()
}

#[test]
fn the_lowest_block_is_the_leftmost_pixel() {
    assert_eq!(
        draw(16, 4, &[&[0], &[7], &[8], &[15]]),
        [
            "#...............",
            ".......#........",
            "........#.......",
            "...............#",
        ]
    );
}

#[test]
fn a_row_does_not_inherit_the_one_before_it() {
    assert_eq!(
        draw(24, 3, &[&[0, 23], &[1], &[]]),
        [
            "#......................#",
            ".#......................",
            "........................",
        ]
    );
}

#[test]
fn the_padding_bits_of_a_row_are_not_pixels() {
    assert_eq!(draw(3, 1, &[&[0, 1, 2]]), ["###"]);
}

#[test]
fn a_binned_row_is_the_union_of_the_transactions_in_it() {
    assert_eq!(
        binned(24, 2, 3, &[&[0], &[9], &[23], &[1], &[2], &[3]]),
        ["#........#.............#", ".###...................."]
    );
}

#[test]
fn a_bin_left_part_full_is_still_a_row() {
    assert_eq!(
        binned(8, 2, 4, &[&[0], &[1], &[2], &[3], &[6], &[7]]),
        ["####....", "......##"]
    );
}

#[test]
fn a_bin_does_not_leak_into_the_next_one() {
    assert_eq!(
        binned(16, 2, 2, &[&[0, 15], &[1], &[8], &[]]),
        ["##.............#", "........#......."]
    );
}

#[test]
fn binning_by_one_draws_what_no_binning_draws() {
    let colors: &[&[usize]] = &[&[0, 5], &[3], &[], &[7]];
    assert_eq!(binned(8, 4, 1, colors), draw(8, 4, colors));
}

#[test]
fn an_empty_color_is_a_blank_row_rather_than_no_row() {
    assert_eq!(draw(8, 2, &[&[], &[]]), ["........", "........"]);
}

#[test]
fn a_block_past_the_last_column_is_an_error_naming_it() {
    let mut w = Writer::new(10, 1, 1, Ink::Flat, &vec![]).ok().unwrap();
    w.set(3, 255);
    w.set(64, 255);
    w.set(70, 255);
    let e = w.end_transaction().err().unwrap();
    assert!(e.kind == FaultKind::InvalidData);
    // The first one over the edge, not the largest and not the last.
    assert!(e.message.contains("block 64"), "{}", e.message);
    assert!(e.message.contains("--blocks 65"), "{}", e.message);
}

#[test]
fn a_record_past_the_last_row_is_refused() {
    let (kind, message) = write(8, 2, 1, &[&[0], &[1], &[2]]).err().unwrap();
    assert!(kind == FaultKind::InvalidData);
    assert!(message.contains("2 rows tall"), "{}", message);
}

#[test]
fn records_that_run_out_early_leave_blank_rows() {
    assert_eq!(draw(8, 3, &[&[1]]), [".#......", "........", "........"]);
}

#[test]
fn a_picture_past_what_the_header_can_say_is_refused() {
    let Err(e) = Writer::new(1usize << 33, 1, 1, Ink::Flat, &vec![]) else {
        panic!("a picture 2^33 columns wide was opened");
    };
    assert!(e.message.contains("larger than a PNG can say"), "{}", e.message);
    assert!(e.kind == FaultKind::Unfit);
    assert!(Writer::new(0, 1, 1, Ink::Flat, &vec![]).is_err(), "no column at all");
}

#[test]
fn the_picture_round_trips_losslessly() {
    let colors: &[&[usize]] = &[
        &[0, 1, 2, 9],
        &[],
        &[19],
        &[0, 19],
        &[3, 4, 5, 6, 7, 8, 9, 10],
        &[0, 2, 4, 6, 8, 10, 12, 14, 16, 18],
        &[10],
    ];
    let width = 21;
    let picture = draw(width, colors.len(), colors);

    let wanted: Vec<String> = colors
        .iter()
        .map(|color| {
            (0..width).map(|block| if color.contains(&block) { '#' } else { '.' }).collect()
        })
        .collect();
    assert_eq!(picture, wanted, "every pixel survived");
}

#[test]
fn a_weighted_pixel_is_the_shade_of_its_weight() {
    let rows = weighted(4, 2, 1, &[&[(0, 1.0), (1, 0.5), (2, 0.001)], &[(3, 0.0)]]);
    assert_eq!(rows[0][0], INK, "the whole of the value is black");
    assert_eq!(rows[0][1], PAPER_8 - shade(0.5));
    assert_eq!(rows[0][2], PAPER_8 - shade(0.001));
    assert_eq!(rows[0][3], PAPER_8, "a block not in the colour is paper");
    assert_eq!(rows[1], vec![PAPER_8; 4]);

    assert!(
        rows[0][0] < rows[0][1] && rows[0][1] < rows[0][2] && rows[0][2] < rows[0][3],
        "heavier weights draw darker: {:?}",
        rows[0]
    );
}

#[test]
fn a_binned_weighted_row_keeps_the_darker_of_two_weights() {
    let rows = weighted(3, 1, 2, &[&[(0, 0.25), (1, 0.75)], &[(1, 0.25), (2, 0.5)]]);
    assert_eq!(
        rows[0],
        vec![
            PAPER_8 - shade(0.25),
            PAPER_8 - shade(0.75),
            PAPER_8 - shade(0.5),
        ]
    );
}

/// The palette picture is the weighted one with its colours beside it.
#[test]
fn a_palette_picture_is_the_weighted_one_plus_its_colours() {
    let weights = [(0, 0.0), (1, 0.001), (2, 0.02), (3, 0.25), (4, 0.5), (5, 1.0)];
    let ramp: Vec<[u8; 3]> = (0..=255u8).map(|v| [v, v / 2 + 100, v]).collect();
    let palette: Vec<u8> = ramp.iter().flatten().copied().collect();
    let coloured = shaded(Ink::Palette, &palette, weights.len(), 1, 1, &[&weights]);
    let grey = shaded(Ink::Weighted, &vec![], weights.len(), 1, 1, &[&weights]);

    let (_, _, palette_samples) = decode(&coloured, Ink::Palette);
    let (_, _, grey_samples) = decode(&grey, Ink::Weighted);
    assert_eq!(
        palette_samples, grey_samples,
        "a palette picture holds exactly the weighted picture's samples"
    );

    let reader = png::Decoder::new(Cursor::new(&coloured[..])).read_info().expect("a PNG header");
    let info = reader.info();
    assert_eq!(info.color_type, png::ColorType::Indexed, "a palette picture is colour type 3");
    let plte = info.palette.as_ref().expect("colour type 3 requires PLTE");
    assert_eq!(plte.len(), 3 * ramp.len(), "one RGB entry a sample");
    for (index, entry) in ramp.iter().enumerate() {
        assert_eq!(&plte[3 * index..3 * index + 3], &entry[..], "entry {} is not the ramp's", index);
    }
    assert_eq!(palette_samples[0], PAPER_8, "no weight is paper");
    assert_eq!(palette_samples[weights.len() - 1], INK);
}

#[test]
fn a_weighted_picture_round_trips_losslessly() {
    let colors: Vec<Vec<(usize, f64)>> = (0..9)
        .map(|r| {
            (0..21)
                .filter(|b| (b + r) % 3 == 0)
                .map(|b| (b, (b + 1) as f64 / 21.0))
                .collect()
        })
        .collect();
    let borrowed: Vec<&[(usize, f64)]> = colors.iter().map(|c| c.as_slice()).collect();
    let rows = weighted(21, colors.len(), 1, &borrowed);

    let wanted: Vec<Vec<u8>> = colors
        .iter()
        .map(|color| {
            (0..21)
                .map(|b| match color.iter().find(|(block, _)| *block == b) {
                    Some(&(_, w)) => PAPER_8 - shade(w),
                    None => PAPER_8,
                })
                .collect()
        })
        .collect();
    assert_eq!(rows, wanted, "every sample survived");
}

/// A picture whose scanlines run past one chunk, so that the seam between two has
/// to be nothing at all to a reader.
#[test]
fn a_picture_of_many_chunks_round_trips() {
    let width = 4096;
    let rows = 16 * 1024;
    let colors: Vec<Vec<usize>> = (0..rows).map(|r| vec![r % width]).collect();
    let borrowed: Vec<&[usize]> = colors.iter().map(|c| c.as_slice()).collect();

    let picture = binned(width, rows, 1, &borrowed);
    for (r, row) in picture.iter().enumerate() {
        assert_eq!(row.len(), width);
        assert_eq!(row.find('#'), Some(r % width), "row {} has its pixel in the wrong column", r);
        assert_eq!(row.matches('#').count(), 1, "row {} has extra ink", r);
    }
}

#[test]
fn what_the_inks_say() {
    assert_eq!((Ink::Flat.depth(), Ink::Flat.colour_type(), Ink::Flat.stride(17)), (1, 0, 3));
    assert_eq!((Ink::Weighted.depth(), Ink::Weighted.colour_type()), (8, 0));
    assert_eq!((Ink::Palette.colour_type(), Ink::Palette.stride(17)), (3, 17));
}

#[test]
fn a_picture_in_colour_round_trips() {
    let (width, height) = (5, 3);
    let rgb: Vec<u8> = (0..width * height * 3).map(|i| (i * 37 % 256) as u8).collect();
    let file = write_png(width, height, &rgb).unwrap();
    let mut reader = png::Decoder::new(Cursor::new(&file)).read_info().expect("a PNG header");
    assert_eq!(reader.info().color_type, png::ColorType::Rgb);
    assert_eq!(reader.info().bit_depth, png::BitDepth::Eight);
    let mut buf = vec![0u8; reader.output_buffer_size().unwrap()];
    let frame = reader.next_frame(&mut buf).unwrap();
    assert_eq!((frame.width, frame.height), (5, 3));
    assert_eq!(buf[..frame.buffer_size()], rgb[..]);
    assert_eq!(file.windows(4).filter(|w| *w == b"IDAT").count(), 1);
}

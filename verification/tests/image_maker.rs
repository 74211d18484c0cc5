use contact_sheet::cli::Args;
use contact_sheet::error::SheetError;
use contact_sheet::image_maker::{
    merge_images, open_frame_data, place, ppm_bytes, GridLayout, Image,
};
use contact_sheet::info::Info;
use contact_sheet::rational::Rational;
use contact_sheet::text::Anchor;

fn args(rows: u32, cols: u32, space: u32) -> Args {
    Args {
        rows,
        cols,
        width: 2048,
        space,
        ext: String::from("jpg"),
        font: None,
        remove_ext: false,
        show: false,
        no_save: false,
        ignore_error: false,
        no_auto_flip: false,
        no_overwrite: false,
        header: false,
        input: String::from("video.mp4"),
    }
}

fn info() -> Info {
    Info {
        file_name: String::from("clip.mkv"),
        file_size: 1536,
        video_width: 1920,
        video_height: 1080,
        video_duration: Rational::new(90, 1),
        video_codec: String::from("h264"),
    }
}

fn frame(width: usize, height: usize, value: u8) -> Image {
    Image::filled(width, height, value)
}

fn shots(n: usize, width: usize, height: usize) -> Vec<(Image, String)> {
    (0..n).map(|i| (frame(width, height, 10 + i as u8), format!("t{}", i))).collect()
}

fn px(img: &Image, x: usize, y: usize) -> (u8, u8, u8) {
    (img.get(x, y, 0), img.get(x, y, 1), img.get(x, y, 2))
}

#[test]
fn open_frame_data_drops_the_padding() {
    // two pixels a row, two rows, rows eight bytes apart
    let data: Vec<u8> = vec![1, 2, 3, 4, 5, 6, 99, 99, 7, 8, 9, 10, 11, 12, 99, 99];
    let img = open_frame_data(2, 2, 8, 1, &data).unwrap();
    assert_eq!((img.width, img.height), (2, 2));
    assert_eq!(img.data, vec![1, 2, 3, 4, 5, 6, 7, 8, 9, 10, 11, 12]);
    assert_eq!(px(&img, 1, 1), (10, 11, 12));
}

#[test]
fn open_frame_data_of_tight_rows_is_a_copy() {
    let data: Vec<u8> = (0..18).collect();
    let img = open_frame_data(3, 2, 9, 1, &data).unwrap();
    assert_eq!(img.data, data);
}

#[test]
fn open_frame_data_of_no_rows_is_empty() {
    let img = open_frame_data(4, 0, 16, 1, &[]).unwrap();
    assert_eq!((img.width, img.height), (4, 0));
    assert!(img.data.is_empty());
}

#[test]
fn open_frame_data_refuses_more_than_one_plane() {
    let data: Vec<u8> = vec![0; 16];
    assert_eq!(
        open_frame_data(2, 2, 8, 3, &data).unwrap_err(),
        SheetError::UnsupportedPixelLayout
    );
    assert_eq!(
        open_frame_data(2, 2, 8, 0, &data).unwrap_err(),
        SheetError::UnsupportedPixelLayout
    );
}

#[test]
fn image_get_and_set() {
    let mut img = Image::filled(3, 2, 7);
    assert_eq!(img.data.len(), 18);
    img.set(2, 1, 1, 42);
    assert_eq!(img.get(2, 1, 1), 42);
    assert_eq!(img.data[16], 42);
    assert_eq!(img.data.iter().filter(|b| **b == 7).count(), 17);
}

#[test]
fn place_copies_the_frame_and_frames_it_in_black() {
    let mut canvas = Image::filled(6, 5, 255);
    let mut f = Image::filled(2, 1, 0);
    f.data = vec![1, 2, 3, 4, 5, 6];
    place(&mut canvas, &f, 2, 2);
    assert_eq!(px(&canvas, 2, 2), (1, 2, 3));
    assert_eq!(px(&canvas, 3, 2), (4, 5, 6));
    for (x, y) in [(1, 1), (2, 1), (3, 1), (4, 1), (1, 2), (4, 2), (1, 3), (2, 3), (3, 3), (4, 3)] {
        assert_eq!(px(&canvas, x, y), (0, 0, 0), "({}, {})", x, y);
    }
    for (x, y) in [(0, 0), (5, 0), (0, 2), (5, 2), (0, 4), (3, 4), (5, 4), (3, 0)] {
        assert_eq!(px(&canvas, x, y), (255, 255, 255), "({}, {})", x, y);
    }
}

#[test]
fn place_leaves_out_what_falls_off_the_canvas() {
    let mut canvas = Image::filled(3, 3, 255);
    let f = Image::filled(2, 2, 9);
    place(&mut canvas, &f, 0, 0);
    assert_eq!(px(&canvas, 0, 0), (9, 9, 9));
    assert_eq!(px(&canvas, 1, 1), (9, 9, 9));
    assert_eq!(px(&canvas, 2, 0), (0, 0, 0));
    assert_eq!(px(&canvas, 2, 2), (0, 0, 0));
    assert_eq!(px(&canvas, 0, 2), (0, 0, 0));
    let mut canvas = Image::filled(3, 3, 255);
    place(&mut canvas, &f, 2, 2);
    assert_eq!(px(&canvas, 2, 2), (9, 9, 9));
    assert_eq!(px(&canvas, 1, 1), (0, 0, 0));
    assert_eq!(px(&canvas, 0, 0), (255, 255, 255));
}

#[test]
fn empty_input_fails() {
    assert_eq!(
        merge_images(Vec::new(), info(), &args(5, 3, 10)).unwrap_err(),
        SheetError::EmptyFrameSet
    );
}

#[test]
fn frames_of_different_sizes_fail() {
    let mut images = shots(2, 4, 3);
    images.push((frame(4, 2, 0), String::from("odd")));
    assert_eq!(
        merge_images(images, info(), &args(2, 2, 1)).unwrap_err(),
        SheetError::FrameSizeMismatch
    );
}

#[test]
fn a_sheet_beyond_31_bits_fails() {
    assert_eq!(
        merge_images(shots(1, 4, 3), info(), &args(1, 1, u32::MAX)).unwrap_err(),
        SheetError::CanvasTooLarge
    );
    assert_eq!(
        merge_images(shots(1, 4, 3), info(), &args(1, 1_000_000_000, 0)).unwrap_err(),
        SheetError::CanvasTooLarge
    );
}

#[test]
fn canvas_size_follows_the_grid() {
    let sheet = merge_images(shots(6, 4, 3), info(), &args(2, 3, 10)).unwrap();
    assert_eq!(sheet.canvas.width, 4 * 3 + 10 * 4);
    assert_eq!(sheet.canvas.height, 3 * 2 + 10 * 3);
    assert!(!sheet.count_mismatch);
    assert_eq!((sheet.frame_count, sheet.cell_count), (6, 6));
    let sheet = merge_images(shots(6, 100, 50), info(), &args(2, 3, 10)).unwrap();
    assert_eq!((sheet.canvas.width, sheet.canvas.height), (340, 130));
    let mut a = args(2, 3, 10);
    a.header = true;
    let sheet = merge_images(shots(6, 4, 3), info(), &a).unwrap();
    assert_eq!(sheet.canvas.width, 4 * 3 + 10 * 4);
    assert_eq!(sheet.canvas.height, 3 * 2 + 10 * 3 + 10 + 3 * 42);
    assert_eq!(sheet.layout.header_height, 136);
    assert_eq!(sheet.header.len(), 3);
    assert_eq!(sheet.header[2].text, "视频编码：h264");
    assert_eq!((sheet.header[1].x, sheet.header[1].y), (10, 52));
    assert_eq!(sheet.canvas.data.len(), sheet.canvas.width * sheet.canvas.height * 3);
}

#[test]
fn upright_frames_flip_the_grid() {
    let sheet = merge_images(shots(15, 2, 3), info(), &args(5, 3, 1)).unwrap();
    assert_eq!((sheet.layout.rows, sheet.layout.cols), (3, 5));
    assert_eq!(sheet.canvas.width, 2 * 5 + 6);
    assert_eq!(sheet.canvas.height, 3 * 3 + 4);
    let mut a = args(5, 3, 1);
    a.no_auto_flip = true;
    let sheet = merge_images(shots(15, 2, 3), info(), &a).unwrap();
    assert_eq!((sheet.layout.rows, sheet.layout.cols), (5, 3));
    assert_eq!(sheet.canvas.width, 2 * 3 + 4);
    assert_eq!(sheet.canvas.height, 3 * 5 + 6);
}

#[test]
fn upright_frames_of_fifty_by_a_hundred() {
    let sheet = merge_images(shots(15, 50, 100), info(), &args(5, 3, 10)).unwrap();
    assert_eq!((sheet.layout.rows, sheet.layout.cols), (3, 5));
    assert_eq!((sheet.canvas.width, sheet.canvas.height), (310, 340));
    let mut a = args(5, 3, 10);
    a.no_auto_flip = true;
    let sheet = merge_images(shots(15, 50, 100), info(), &a).unwrap();
    assert_eq!((sheet.layout.rows, sheet.layout.cols), (5, 3));
    assert_eq!((sheet.canvas.width, sheet.canvas.height), (190, 560));
}

#[test]
fn only_upright_frames_in_a_tall_grid_flip_it() {
    let wide = GridLayout::plan(3, 2, &args(5, 3, 1));
    assert_eq!((wide.rows, wide.cols), (5, 3));
    let square = GridLayout::plan(3, 3, &args(5, 3, 1));
    assert_eq!((square.rows, square.cols), (5, 3));
    let flat = GridLayout::plan(2, 3, &args(3, 5, 1));
    assert_eq!((flat.rows, flat.cols), (3, 5));
    let even = GridLayout::plan(2, 3, &args(4, 4, 1));
    assert_eq!((even.rows, even.cols), (4, 4));
    let tall = GridLayout::plan(2, 3, &args(5, 3, 1));
    assert_eq!((tall.rows, tall.cols), (3, 5));
    assert_eq!((tall.cell_width, tall.cell_height, tall.spacing), (2, 3, 1));
}

#[test]
fn check_fits_tells_sheets_that_can_be_made() {
    assert!(GridLayout::plan(4, 3, &args(2, 3, 10)).check_fits());
    assert!(!GridLayout::plan(4, 3, &args(2, 3, u32::MAX)).check_fits());
    assert!(!GridLayout::plan(1 << 20, 1, &args(1, 1 << 12, 0)).check_fits());
    assert!(GridLayout::plan(0, 0, &args(u32::MAX, u32::MAX, 0)).check_fits());
}

#[test]
fn fewer_frames_than_cells_leave_cells_white() {
    let sheet = merge_images(shots(3, 2, 2), info(), &args(2, 2, 2)).unwrap();
    assert!(sheet.count_mismatch);
    assert_eq!(sheet.labels.len(), 3);
    assert_eq!((sheet.canvas.width, sheet.canvas.height), (10, 10));
    // first row, both cells
    assert_eq!(px(&sheet.canvas, 2, 2), (10, 10, 10));
    assert_eq!(px(&sheet.canvas, 3, 3), (10, 10, 10));
    assert_eq!(px(&sheet.canvas, 6, 2), (11, 11, 11));
    assert_eq!(px(&sheet.canvas, 7, 3), (11, 11, 11));
    // second row, first cell
    assert_eq!(px(&sheet.canvas, 2, 6), (12, 12, 12));
    assert_eq!(px(&sheet.canvas, 3, 7), (12, 12, 12));
    // second row, second cell: white, border of its neighbours apart
    assert_eq!(px(&sheet.canvas, 6, 6), (255, 255, 255));
    assert_eq!(px(&sheet.canvas, 7, 7), (255, 255, 255));
    assert_eq!(px(&sheet.canvas, 6, 7), (255, 255, 255));
    assert_eq!(px(&sheet.canvas, 8, 8), (255, 255, 255));
    // borders
    assert_eq!(px(&sheet.canvas, 1, 1), (0, 0, 0));
    assert_eq!(px(&sheet.canvas, 4, 4), (0, 0, 0));
    assert_eq!(px(&sheet.canvas, 5, 1), (0, 0, 0));
    assert_eq!(px(&sheet.canvas, 8, 4), (0, 0, 0));
    assert_eq!(px(&sheet.canvas, 1, 5), (0, 0, 0));
    // edge of the sheet
    assert_eq!(px(&sheet.canvas, 0, 0), (255, 255, 255));
    assert_eq!(px(&sheet.canvas, 9, 9), (255, 255, 255));
    assert_eq!(px(&sheet.canvas, 0, 5), (255, 255, 255));
}

#[test]
fn more_frames_than_cells_are_left_out() {
    let sheet = merge_images(shots(5, 2, 2), info(), &args(1, 2, 2)).unwrap();
    assert!(sheet.count_mismatch);
    assert_eq!((sheet.frame_count, sheet.cell_count), (5, 2));
    assert_eq!(sheet.labels.len(), 2);
    assert_eq!((sheet.canvas.width, sheet.canvas.height), (10, 6));
    assert_eq!(px(&sheet.canvas, 6, 2), (11, 11, 11));
}

#[test]
fn a_grid_without_cells_is_an_empty_sheet() {
    let sheet = merge_images(shots(2, 2, 2), info(), &args(0, 3, 2)).unwrap();
    assert!(sheet.count_mismatch);
    assert!(sheet.labels.is_empty());
    assert_eq!((sheet.canvas.width, sheet.canvas.height), (2 * 3 + 2 * 4, 2));
    assert!(sheet.canvas.data.iter().all(|b| *b == 255));
}

#[test]
fn labels_stand_at_the_bottom_left_of_their_cells() {
    let images = shots(4, 20, 10);
    let sheet = merge_images(images, info(), &args(2, 2, 3)).unwrap();
    assert_eq!(sheet.labels.len(), 4);
    let at: Vec<(u64, u64)> = sheet.labels.iter().map(|l| (l.x, l.y)).collect();
    assert_eq!(at, vec![(8, 8), (31, 8), (8, 21), (31, 21)]);
    let texts: Vec<&str> = sheet.labels.iter().map(|l| l.text.as_str()).collect();
    assert_eq!(texts, vec!["t0", "t1", "t2", "t3"]);
    assert!(sheet.labels.iter().all(|l| l.anchor == Anchor::BottomLeft));
}

#[test]
fn the_header_moves_the_grid_down() {
    let mut a = args(1, 1, 2);
    a.header = true;
    let sheet = merge_images(shots(1, 2, 2), info(), &a).unwrap();
    assert_eq!((sheet.canvas.width, sheet.canvas.height), (6, 2 + 4 + 128));
    assert_eq!(px(&sheet.canvas, 2, 2), (255, 255, 255));
    assert_eq!(px(&sheet.canvas, 2, 130), (10, 10, 10));
    assert_eq!(px(&sheet.canvas, 1, 129), (0, 0, 0));
    assert_eq!((sheet.labels[0].x, sheet.labels[0].y), (7, 127));
}

#[test]
fn without_gaps_borders_lie_on_the_neighbours() {
    let sheet = merge_images(shots(2, 2, 2), info(), &args(1, 2, 0)).unwrap();
    assert_eq!((sheet.canvas.width, sheet.canvas.height), (4, 2));
    // the second frame's border covers the last column of the first
    assert_eq!(px(&sheet.canvas, 0, 0), (10, 10, 10));
    assert_eq!(px(&sheet.canvas, 1, 0), (0, 0, 0));
    assert_eq!(px(&sheet.canvas, 2, 0), (11, 11, 11));
    assert_eq!(px(&sheet.canvas, 3, 1), (11, 11, 11));
}

fn pixmap_head(size: &str) -> Vec<u8> {
    let mut head = vec![80u8, 54, 10];
    head.extend_from_slice(size.as_bytes());
    head.extend_from_slice(b"\n255\n");
    head
}

#[test]
fn pixmap_is_head_and_pixels() {
    let mut img = Image::filled(2, 1, 0);
    img.data = vec![1, 2, 3, 4, 5, 6];
    let mut want = pixmap_head("2 1");
    want.extend_from_slice(&[1, 2, 3, 4, 5, 6]);
    assert_eq!(ppm_bytes(&img), want);
    let img = Image::filled(120, 0, 0);
    assert_eq!(ppm_bytes(&img), pixmap_head("120 0"));
    let img = Image::filled(0, 1005, 0);
    assert_eq!(ppm_bytes(&img), pixmap_head("0 1005"));
}

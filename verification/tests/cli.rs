use contact_sheet::cli::Args;
use contact_sheet::error::SheetError;
use contact_sheet::process::is_video;

fn args() -> Args {
    Args {
        rows: 5,
        cols: 3,
        width: 2048,
        space: 10,
        ext: String::from("jpg"),
        font: None,
        remove_ext: false,
        show: false,
        no_save: false,
        ignore_error: false,
        no_auto_flip: false,
        no_overwrite: false,
        header: false,
        input: String::from("video.mp4"),
    }
}

#[test]
fn num_of_frames_is_rows_times_cols() {
    assert_eq!(args().num_of_frames(), 15);
    let a = Args { rows: 0, ..args() };
    assert_eq!(a.num_of_frames(), 0);
    let a = Args { rows: 65535, cols: 65537, ..args() };
    assert_eq!(a.num_of_frames(), u32::MAX);
}

#[test]
fn scaled_frame_width_shares_out_what_the_gaps_leave() {
    assert_eq!(args().scaled_frame_width(), 669);
    let a = Args { cols: 1, width: 100, space: 50, ..args() };
    assert_eq!(a.scaled_frame_width(), 0);
    let a = Args { cols: 4, width: 1000, space: 0, ..args() };
    assert_eq!(a.scaled_frame_width(), 250);
}

#[test]
fn is_valid_tells_usable_options() {
    assert!(args().is_valid());
    assert!(!Args { cols: 0, ..args() }.is_valid());
    assert!(!Args { rows: 65536, cols: 65536, ..args() }.is_valid());
    assert!(!Args { width: 39, ..args() }.is_valid());
    assert!(Args { width: 40, ..args() }.is_valid());
    assert!(!Args { cols: u32::MAX, space: u32::MAX, ..args() }.is_valid());
}

#[test]
fn output_name_appends_the_extension() {
    let a = args();
    assert_eq!(a.output_name("video.mp4").unwrap(), "video.mp4.jpg");
    assert_eq!(a.output_name("dir/clip.mkv").unwrap(), "dir/clip.mkv.jpg");
    assert_eq!(a.output_name("dir.d/clip").unwrap(), "dir.d/clip.jpg");
    assert_eq!(a.output_name("C:\\v\\clip.avi").unwrap(), "C:\\v\\clip.avi.jpg");
    assert_eq!(a.output_name(".hidden").unwrap(), ".hidden.jpg");
    assert_eq!(a.output_name("...").unwrap(), "....jpg");
}

#[test]
fn output_name_needs_a_file_name_to_append_to() {
    let a = args();
    for s in ["", "dir/", "/", "..", "dir/..", ".", "dir/.", "C:\\v\\"] {
        assert_eq!(a.output_name(s), Err(SheetError::MissingFileName), "{:?}", s);
    }
}

#[test]
fn output_name_replaces_the_extension() {
    let a = Args { remove_ext: true, ..args() };
    assert_eq!(a.output_name("video.mp4").unwrap(), "video.jpg");
    assert_eq!(a.output_name("dir/clip.tar.gz").unwrap(), "dir/clip.tar.jpg");
    assert_eq!(a.output_name("dir.d/clip").unwrap(), "dir.d/clip.jpg");
    assert_eq!(a.output_name("dir/.hidden").unwrap(), "dir/.hidden.jpg");
    assert_eq!(a.output_name("clip.").unwrap(), "clip.jpg");
    assert_eq!(a.output_name("C:\\v.w\\clip").unwrap(), "C:\\v.w\\clip.jpg");
    let a = Args { remove_ext: true, ext: String::new(), ..args() };
    assert_eq!(a.output_name("video.mp4").unwrap(), "video");
    assert_eq!(a.output_name("video").unwrap(), "video");
}

#[test]
fn is_video_goes_by_the_extension() {
    for s in ["a.mp4", "a.m4v", "a.mkv", "a.avi", "a.webm", "a.mov", "a.flv", "a.ts", "d/x.y.mkv"] {
        assert!(is_video(s), "{:?}", s);
    }
    for s in [
        "a", "a.", "a.txt", "a.MP4", ".mp4", "d/.mkv", "a.mp4/", "a.mp4/b", "mp4", "a.mp", "a.mp44",
        "a.tss", "a.t", "",
    ] {
        assert!(!is_video(s), "{:?}", s);
    }
}

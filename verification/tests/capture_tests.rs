use pkgtools::capture::{
    bitrate_choice, hyprctl_request, hyprland_query_allowed, hyprland_socket_path, output_file_path, recorded_size, selection_action, BitrateChoice, SelectionAction, compositor_from_env, key_action, key_matches, parse_resolution, CaptureMode, Compositor,
    KeyAction, KeyMatches,
};
use pkgtools::config::{
    parse_hex_color, BorderConfig, CaptureConfig, FontConfig, FontWeight, KeybindsConfig, LogLevel, OcrConfig,
    ToolsConfig, UploadConfig,
};
use pkgtools::gulp::{self, CaptureError, CaptureState, FrameEvent, WaitStep};
use pkgtools::pixels::{blit, convert_argb_to_rgba, copy_frozen, dim_argb_by};
use pkgtools::region::{
    compose_region, create_local_selection, find_outputs_for_rect, ComposeError, translate_rect_to_local, CapturedImage,
    output_draw, CropError, InvalidGeometry, OutputDraw, Rect, Selection, SurfaceState,
};

#[test]
fn modes_read_back_from_their_names() {
    for mode in [
        CaptureMode::ImageArea,
        CaptureMode::ImageWindow,
        CaptureMode::ImageScreen,
        CaptureMode::VideoArea,
        CaptureMode::VideoWindow,
        CaptureMode::VideoScreen,
    ] {
        assert_eq!(CaptureMode::from_str(mode.as_str()), Ok(mode));
    }
    assert_eq!(CaptureMode::StopRecording.as_str(), "stop-recording");
    assert!(CaptureMode::from_str("stop-recording").is_err());
}

#[test]
fn an_unknown_mode_lists_the_valid_ones() {
    let err = CaptureMode::from_str("photo").unwrap_err();
    assert_eq!(err.given, "photo");
    assert_eq!(
        err.message(),
        "Invalid mode: 'photo'. Valid modes: image-area, image-window, image-screen, video-area, video-window, video-screen"
    );
}

#[test]
fn only_recordings_are_video() {
    assert!(CaptureMode::VideoArea.is_video());
    assert!(!CaptureMode::ImageScreen.is_video());
    assert!(!CaptureMode::StopRecording.is_video());
    assert!(gulp::CaptureMode::VideoWindow.is_video());
    assert!(!gulp::CaptureMode::ImageWindow.is_video());
    assert_eq!(gulp::CaptureMode::from_str("image-screen"), Ok(gulp::CaptureMode::ImageScreen));
    assert!(gulp::CaptureMode::from_str("stop-recording").is_err());
}

#[test]
fn compositors_are_named_and_detected() {
    assert_eq!(Compositor::Hyprland.name(), "Hyprland");
    assert_eq!(Compositor::Unknown.name(), "Unknown");
    assert_eq!(compositor_from_env(false, true, true), Compositor::Niri);
    assert_eq!(compositor_from_env(false, false, false), Compositor::Unknown);
}

#[test]
fn resolutions_are_read() {
    assert_eq!(parse_resolution("1920x1080"), Some((1920, 1080)));
    assert_eq!(parse_resolution(" 2560 x 1440 "), Some((2560, 1440)));
    assert_eq!(parse_resolution("+640x480"), Some((640, 480)));
    assert_eq!(parse_resolution("1920"), None);
    assert_eq!(parse_resolution("axb"), None);
    assert_eq!(parse_resolution(""), None);
}

#[test]
fn default_keybinds_have_no_problems() {
    assert!(KeybindsConfig::default().problems().is_empty());
    let kb = KeybindsConfig::default();
    let entries = kb.entries();
    assert_eq!(entries[0], ("screenshot_area", "a"));
    assert_eq!(entries[7], ("stop_recording", "x"));
}

#[test]
fn broken_keybinds_are_reported() {
    let mut kb = KeybindsConfig::default();
    kb.ocr = "ctrl".to_owned();
    kb.record_area = "a".to_owned();
    assert_eq!(
        kb.problems(),
        vec![
            "keybind ocr is \"ctrl\", which is not a single key, so it will never fire".to_owned(),
            "keybinds screenshot_area and record_area are both \"a\"; only screenshot_area will fire"
                .to_owned(),
        ]
    );
}

#[test]
fn config_defaults() {
    let font = FontConfig::default();
    assert_eq!(font.family, "Inter");
    assert_eq!(font.size, 16);
    assert_eq!(font.weight, FontWeight::Bold);
    let border = BorderConfig::default();
    assert_eq!((border.color.as_str(), border.thickness, border.rounding), ("#FFFFFF", 2, 0));
    let capture = CaptureConfig::default();
    assert_eq!(capture.save_path, "/tmp");
    assert_eq!(capture.video.max_fps, 60);
    assert_eq!(capture.video.codec, "auto");
    assert_eq!(OcrConfig::default().language, "eng");
    assert_eq!(ToolsConfig::default().wl_screenrec, "wl-screenrec");
    assert!(UploadConfig::default().zipline.url.is_empty());
    assert_eq!(LogLevel::default(), LogLevel::Off);
}

fn keys() -> KeyMatches {
    KeyMatches {
        cancel: false,
        ocr: false,
        stop_recording: false,
        screenshot_area: false,
        screenshot_screen: false,
        screenshot_window: false,
        record_area: false,
        record_screen: false,
        record_window: false,
    }
}

#[test]
fn keys_choose_what_the_selector_does() {
    let cancel = KeyMatches { cancel: true, ..keys() };
    assert_eq!(key_action(cancel, false, false), KeyAction::Cancel);
    let area = KeyMatches { screenshot_area: true, ..keys() };
    assert_eq!(key_action(area, true, false), KeyAction::SelectRegion(CaptureMode::ImageArea));
    assert_eq!(key_action(area, false, false), KeyAction::Ignore);
    let stop = KeyMatches { stop_recording: true, ..keys() };
    assert_eq!(key_action(stop, true, false), KeyAction::Ignore);
    assert_eq!(key_action(stop, true, true), KeyAction::StopRecording);
    let screen = KeyMatches { record_screen: true, ..keys() };
    assert_eq!(key_action(screen, true, false), KeyAction::CaptureNow(CaptureMode::VideoScreen));
    assert!(key_matches('a', "a"));
    assert!(!key_matches('a', ""));
    assert!(!key_matches('A', "a"));
}

#[test]
fn a_frame_is_captured_once_ready() {
    let mut state = CaptureState::new();
    assert!(!state.is_complete());
    state.event(FrameEvent::Buffer { format: Some(0), width: 4, height: 2, stride: 16 });
    assert_eq!((state.width, state.height, state.stride, state.format), (Some(4), Some(2), Some(16), Some(0)));
    assert_eq!(state.next_step(0), WaitStep::Poll);
    assert_eq!(state.to_result(), Err(CaptureError::TimedOut(100)));
    state.event(FrameEvent::Ready);
    assert_eq!(state.next_step(1), WaitStep::Finish(Ok(())));
    let mut refused = CaptureState::new();
    refused.event(FrameEvent::Failed);
    assert_eq!(refused.to_result(), Err(CaptureError::Rejected));
    assert_eq!(CaptureState::new().next_step(100), WaitStep::Finish(Err(CaptureError::TimedOut(100))));
    assert!(CaptureState::new().pause_after_poll(6));
    assert!(!CaptureState::new().pause_after_poll(5));
}

#[test]
fn blit_copies_the_rectangle() {
    // Two 2x2 buffers with 8-byte rows; copy the right column.
    let src: Vec<u8> = (0u8..16).collect();
    let mut dst = vec![0u8; 16];
    blit(&mut dst, 8, &src, 8, 1, 0, 1, 2);
    assert_eq!(dst, vec![0, 0, 0, 0, 4, 5, 6, 7, 0, 0, 0, 0, 12, 13, 14, 15]);
}

#[test]
fn blit_clips_at_the_buffer_end() {
    let src = vec![9u8; 8];
    let mut dst = vec![0u8; 16];
    blit(&mut dst, 8, &src, 8, 0, 0, 2, 3);
    assert_eq!(dst, vec![9, 9, 9, 9, 9, 9, 9, 9, 0, 0, 0, 0, 0, 0, 0, 0]);
}

#[test]
fn argb_becomes_rgba() {
    assert_eq!(convert_argb_to_rgba(&[1, 2, 3, 4, 5, 6, 7, 8, 9]), vec![3, 2, 1, 4, 7, 6, 5, 8, 0]);
}

#[test]
fn dimming_keeps_alpha() {
    assert_eq!(dim_argb_by(&[255, 100, 0, 200, 7], 128), vec![128, 50, 0, 200, 7]);
    assert_eq!(dim_argb_by(&[10, 20, 30, 40], 255), vec![10, 20, 30, 40]);
}

#[test]
fn rectangles_overlap() {
    let a = Rect::new(0, 0, 4, 4);
    let b = Rect::new(2, 2, 4, 4);
    assert_eq!(a.intersection(&b), Some(Rect::new(2, 2, 2, 2)));
    assert_eq!(a.intersection(&Rect::new(4, 0, 2, 2)), None);
    assert!(!a.intersects(&Rect::new(10, 10, 2, 2)));
    assert_eq!(Rect::new(0, 0, 3, 5).area(), 15);
    assert_eq!(translate_rect_to_local(b, 1, 2), Rect::new(1, 0, 4, 4));
    assert_eq!(create_local_selection(b, 2, 2).get_rect(), Some(Rect::new(0, 0, 4, 4)));
    assert_eq!(Selection::new().get_rect(), None);
}

#[test]
fn outputs_are_ordered_by_coverage() {
    let outputs = [Rect::new(0, 0, 4, 4), Rect::new(4, 0, 4, 4), Rect::new(100, 0, 4, 4)];
    let found = find_outputs_for_rect(&outputs, Rect::new(3, 0, 4, 4)).unwrap();
    let order: Vec<usize> = found.iter().map(|c| c.output).collect();
    assert_eq!(order, vec![1, 0]);
    assert_eq!(found[0].area, 12);
    assert!(find_outputs_for_rect(&outputs, Rect::new(50, 50, 2, 2)).is_err());
}

fn capture(width: u32, height: u32) -> CapturedImage {
    let data: Vec<u8> = (0..width * height * 4).map(|i| i as u8).collect();
    CapturedImage::new(data, width, height, width * 4, 0)
}

#[test]
fn cropping_clips_to_the_frame() {
    let img = capture(4, 4);
    let cropped = img.crop(Rect::new(-2, 2, 4, 4)).unwrap();
    assert_eq!((cropped.width, cropped.height, cropped.stride), (2, 2, 8));
    assert_eq!(cropped.data, vec![32, 33, 34, 35, 36, 37, 38, 39, 48, 49, 50, 51, 52, 53, 54, 55]);
    assert!(matches!(
        img.crop(Rect::new(10, 10, 2, 2)),
        Err(CropError::OutsideCapture { .. })
    ));
}

#[test]
fn cropping_a_short_buffer_fails() {
    let img = CapturedImage::new(vec![0; 8], 4, 4, 16, 0);
    assert!(matches!(img.crop(Rect::new(0, 0, 4, 4)), Err(CropError::BeyondBuffer { .. })));
}

/// A `width`x`height` capture whose every byte is `fill`.
fn filled(width: u32, height: u32, fill: u8) -> CapturedImage {
    let data = vec![fill; (width * height * 4) as usize];
    CapturedImage::new(data, width, height, width * 4, 0)
}

/// The pixel at (x, y) of a composed image, as its first byte.
fn pixel(image: &CapturedImage, x: u32, y: u32) -> u8 {
    image.data[(y * image.stride + x * 4) as usize]
}

#[test]
fn composes_a_selection_spanning_two_outputs() {
    let left = filled(4, 4, 0x11);
    let right = filled(4, 4, 0x22);
    let parts = [(Rect::new(0, 0, 4, 4), &left), (Rect::new(4, 0, 4, 4), &right)];

    // Two columns from the left output, two from the right.
    let composed = compose_region(Rect::new(2, 0, 4, 4), &parts).unwrap();

    assert_eq!((composed.width, composed.height), (4, 4));
    assert_eq!(pixel(&composed, 0, 0), 0x11);
    assert_eq!(pixel(&composed, 1, 3), 0x11);
    assert_eq!(pixel(&composed, 2, 0), 0x22);
    assert_eq!(pixel(&composed, 3, 3), 0x22);
}

#[test]
fn trims_a_selection_hanging_off_the_desktop() {
    let output = filled(4, 4, 0x33);
    let parts = [(Rect::new(0, 0, 4, 4), &output)];

    let composed = compose_region(Rect::new(2, 2, 4, 4), &parts).unwrap();

    assert_eq!((composed.width, composed.height), (2, 2));
    assert_eq!(pixel(&composed, 1, 1), 0x33);
}

#[test]
fn rejects_a_selection_off_every_output() {
    let output = filled(4, 4, 0x44);
    let parts = [(Rect::new(0, 0, 4, 4), &output)];

    assert!(compose_region(Rect::new(10, 10, 2, 2), &parts).is_err());
}

#[test]
fn samples_a_scaled_output() {
    // A 2x output: 8x8 pixels of capture behind 4x4 of layout.
    let mut data = vec![0u8; 8 * 8 * 4];
    for (index, pixel) in data.chunks_exact_mut(4).enumerate() {
        // Mark the right half of the capture so sampling is visible.
        pixel[0] = if index % 8 >= 4 { 0xAA } else { 0x55 };
    }
    let scaled = CapturedImage::new(data, 8, 8, 8 * 4, 0);
    let parts = [(Rect::new(0, 0, 4, 4), &scaled)];

    let composed = compose_region(Rect::new(0, 0, 4, 4), &parts).unwrap();

    assert_eq!((composed.width, composed.height), (4, 4));
    assert_eq!(pixel(&composed, 0, 0), 0x55);
    assert_eq!(pixel(&composed, 3, 3), 0xAA);
}

#[test]
fn outputs_captured_in_different_formats_are_refused() {
    let a = filled(4, 4, 1);
    let b = CapturedImage::new(vec![2; 64], 4, 4, 16, 1);
    let parts = [(Rect::new(0, 0, 4, 4), &a), (Rect::new(4, 0, 4, 4), &b)];
    assert_eq!(
        compose_region(Rect::new(0, 0, 8, 4), &parts).unwrap_err(),
        ComposeError::MixedFormats { x: 4, y: 0, found: 1, expected: 0 }
    );
}

#[test]
fn a_gap_between_outputs_stays_blank() {
    let tall = filled(2, 4, 7);
    let short = filled(2, 2, 9);
    let parts = [(Rect::new(0, 0, 2, 4), &tall), (Rect::new(2, 0, 2, 2), &short)];
    let composed = compose_region(Rect::new(0, 0, 4, 4), &parts).unwrap();
    assert_eq!(pixel(&composed, 0, 3), 7);
    assert_eq!(pixel(&composed, 3, 1), 9);
    assert_eq!(pixel(&composed, 3, 3), 0);
}

#[test]
fn converting_twice_gives_the_pixels_back() {
    let buffer: Vec<u8> = (1u8..=10).collect();
    let twice = convert_argb_to_rgba(&convert_argb_to_rgba(&buffer));
    assert_eq!(&twice[..8], &buffer[..8]);
    assert_eq!(&twice[8..], &[0, 0]);
}

#[test]
fn a_region_is_written_as_position_and_size() {
    assert_eq!(Rect::new(10, 20, 300, 400).to_geometry_string(), "10,20 300x400");
    assert_eq!(Rect::new(-1920, 0, 1920, 1080).to_geometry_string(), "-1920,0 1920x1080");
}

#[test]
fn a_written_region_reads_back() {
    for rect in [
        Rect::new(0, 0, 1, 1),
        Rect::new(-2560, -1440, 2560, 1440),
        Rect::new(i32::MIN, i32::MAX, 0, -5),
    ] {
        let text = rect.to_geometry_string();
        assert_eq!(Rect::from_geometry_string(&text), Ok(rect));
    }
}

#[test]
fn a_region_reads_as_str_parse_reads_its_numbers() {
    assert_eq!(Rect::from_geometry_string("+5,07 3x4"), Ok(Rect::new(5, 7, 3, 4)));
    for bad in ["", "5,7", "5,7 3", "5 7,3x4", "5,7 3x", "a,7 3x4", "5,7 3x4x", "2147483648,0 1x1"] {
        assert_eq!(
            Rect::from_geometry_string(bad),
            Err(InvalidGeometry { given: bad.to_string() })
        );
    }
}

#[test]
fn hex_colors_read_as_their_channels() {
    assert_eq!(parse_hex_color("#FF8800"), Some((255, 136, 0)));
    assert_eq!(parse_hex_color("#FFF"), Some((255, 255, 255)));
    assert_eq!(parse_hex_color("##abc"), Some((0xaa, 0xbb, 0xcc)));
    assert_eq!(parse_hex_color("0d0D14"), Some((13, 13, 20)));
    // Each channel is read as `u8::from_str_radix` reads it, sign included.
    assert_eq!(parse_hex_color("+f+f+f"), Some((15, 15, 15)));
    for bad in ["", "#", "#12345", "#1234567", "#GGGGGG", "#+++", "#ab", "\u{e9}\u{e9}\u{e9}"] {
        assert_eq!(parse_hex_color(bad), None, "{bad}");
    }
}

#[test]
fn a_configured_bitrate_is_kept_and_otherwise_the_encoded_area_decides() {
    assert_eq!(
        bitrate_choice("12 MB", "2560x1440", Some((1920, 1080))),
        BitrateChoice::Configured("12 MB".to_string())
    );
    assert_eq!(
        bitrate_choice("", "2560x1440", Some((1920, 1080))),
        BitrateChoice::Sized { width: 2560, height: 1440 }
    );
    assert_eq!(
        bitrate_choice("", "", Some((1920, 1080))),
        BitrateChoice::Sized { width: 1920, height: 1080 }
    );
    assert_eq!(bitrate_choice("", "", None), BitrateChoice::RecorderDefault);
    assert_eq!(bitrate_choice("", "wide", None), BitrateChoice::RecorderDefault);
}

fn surface(needs_render: bool, last_had_selection: bool) -> SurfaceState {
    SurfaceState {
        configured: true,
        waiting_for_frame: false,
        ready: true,
        needs_render,
        last_had_selection,
    }
}

#[test]
fn an_output_draws_the_part_of_the_selection_on_it() {
    let output = Rect::new(1920, 0, 1920, 1080);
    let selection = Selection::from_rect(Rect::new(1800, 100, 400, 300));
    let (draw, after) = output_draw(surface(false, false), output, selection);
    assert_eq!(draw, OutputDraw::Selected(Selection::from_rect(Rect::new(-120, 100, 400, 300))));
    assert!(after.waiting_for_frame && after.last_had_selection && !after.needs_render);

    // Waiting for the frame, nothing is drawn.
    let (draw, same) = output_draw(after, output, selection);
    assert_eq!((draw, same), (OutputDraw::Skip, after));
}

#[test]
fn an_output_without_the_selection_dims_once() {
    let output = Rect::new(0, 0, 1920, 1080);
    let selection = Selection::from_rect(Rect::new(2000, 100, 50, 50));
    let (draw, after) = output_draw(surface(true, false), output, selection);
    assert_eq!(draw, OutputDraw::Dimmed);
    assert!(!after.last_had_selection);
    let idle = SurfaceState { waiting_for_frame: false, ..after };
    assert_eq!(output_draw(idle, output, selection).0, OutputDraw::Skip);
    // The selection leaving the output clears it once more.
    assert_eq!(output_draw(surface(false, true), output, selection).0, OutputDraw::Dimmed);
    assert_eq!(output_draw(surface(false, false), output, Selection::new()).0, OutputDraw::Skip);
}

#[test]
fn an_explicit_output_wins_over_the_timestamped_name() {
    assert_eq!(output_file_path(Some("-"), "/shots", "2024-01-01_00-00-00", "png"), "-");
    assert_eq!(
        output_file_path(None, "/shots", "2024-01-01_00-00-00", "png"),
        "/shots/2024-01-01_00-00-00.png"
    );
}

#[test]
fn a_recorded_area_never_has_a_negative_side() {
    assert_eq!(recorded_size(Rect::new(5, 5, 1920, 1080)), (1920, 1080));
    assert_eq!(recorded_size(Rect::new(5, 5, -3, 10)), (0, 10));
}

#[test]
fn a_selection_goes_where_the_mode_says() {
    let rect = Rect::new(10, 20, 30, 40);
    assert_eq!(
        selection_action(Some(CaptureMode::ImageArea), true, true, true, rect),
        SelectionAction::Hand { geometry: "10,20 30x40".to_string(), crop: true }
    );
    assert_eq!(
        selection_action(Some(CaptureMode::VideoArea), true, false, false, rect),
        SelectionAction::Hand { geometry: "10,20 30x40".to_string(), crop: false }
    );
    assert_eq!(selection_action(None, false, true, true, rect), SelectionAction::Ocr);
    assert_eq!(selection_action(None, false, false, true, rect), SelectionAction::Save);
    assert_eq!(
        selection_action(Some(CaptureMode::ImageScreen), false, false, false, rect),
        SelectionAction::Print("10,20 30x40".to_string())
    );
}

#[test]
fn hyprland_is_asked_through_its_instance_socket() {
    assert_eq!(
        hyprland_socket_path("/run/user/1000", "abc_123"),
        "/run/user/1000/hypr/abc_123/.socket.sock"
    );
    assert_eq!(hyprctl_request("activewindow"), "-j/activewindow");
    assert_eq!(hyprland_query_allowed(Compositor::Hyprland), Ok(()));
    assert_eq!(
        hyprland_query_allowed(Compositor::Sway),
        Err("Hyprland-specific features require Hyprland (detected: Sway). Use generic Wayland protocols instead."
            .to_string())
    );
}

#[test]
fn frozen_frame_with_the_same_stride_is_copied_as_far_as_both_reach() {
    let mut buffer = vec![0u8; 8];
    let frozen: Vec<u8> = (1..=6).collect();
    copy_frozen(&mut buffer, &frozen, 4, 1, 2);
    assert_eq!(buffer, vec![1, 2, 3, 4, 5, 6, 0, 0]);
}

#[test]
fn frozen_frame_with_another_stride_is_copied_row_by_row() {
    // Two rows of one pixel; the frozen rows are 6 bytes apart and its second
    // row is cut short, so only the first row is copied.
    let mut buffer = vec![0u8; 8];
    let frozen: Vec<u8> = (1..=9).collect();
    copy_frozen(&mut buffer, &frozen, 6, 1, 2);
    assert_eq!(buffer, vec![1, 2, 3, 4, 0, 0, 0, 0]);
    let frozen: Vec<u8> = (1..=10).collect();
    copy_frozen(&mut buffer, &frozen, 6, 1, 2);
    assert_eq!(buffer, vec![1, 2, 3, 4, 7, 8, 9, 10]);
}

use twitter_dl::error::AppError;
use twitter_dl::overlay::parse_video_dims;
use twitter_dl::overlay::{
    after_probe, card_heights, codec_name, render_size, encoder_args, find_font, first_probe, font_candidates,
    hd_avatar_url, overlay_ffmpeg_args, overlay_filter, py_str, strip_tco, word_wrap, ProbeStep,
    VideoEncoder,
};

#[test]
fn encoder_probe_order() {
    assert_eq!(first_probe(), ProbeStep::Probe(VideoEncoder::Nvenc));
    assert_eq!(after_probe(VideoEncoder::Nvenc, true), ProbeStep::Use(VideoEncoder::Nvenc));
    assert_eq!(after_probe(VideoEncoder::Nvenc, false), ProbeStep::Probe(VideoEncoder::Amf));
    assert_eq!(after_probe(VideoEncoder::Amf, false), ProbeStep::Probe(VideoEncoder::Qsv));
    assert_eq!(after_probe(VideoEncoder::Qsv, false), ProbeStep::Use(VideoEncoder::Libx264));
    assert_eq!(codec_name(VideoEncoder::Amf), "h264_amf");
}

#[test]
fn encoder_arguments() {
    assert_eq!(
        encoder_args(VideoEncoder::Libx264),
        vec!["-c:v", "libx264", "-preset", "fast", "-crf", "20", "-threads", "0"]
    );
    assert_eq!(
        encoder_args(VideoEncoder::Nvenc),
        vec!["-c:v", "h264_nvenc", "-preset", "p4", "-cq", "18", "-rc", "vbr", "-pix_fmt", "yuv420p"]
    );
    assert_eq!(encoder_args(VideoEncoder::Qsv).len(), 8);
    assert_eq!(encoder_args(VideoEncoder::Amf)[3], "quality");
}

#[test]
fn tco_links_are_removed() {
    assert_eq!(strip_tco("  look at this https://t.co/abc\n and http://t.co/x too  "), "look at this and too");
    assert_eq!(strip_tco("https://t.co/only"), "");
    assert_eq!(strip_tco("keep https://t.com/x"), "keep https://t.com/x");
}

#[test]
fn word_wrap_wraps_and_cuts() {
    assert_eq!(word_wrap("one two three four", 9, 5), "one two\nthree\nfour");
    assert_eq!(word_wrap("aaa bbb ccc ddd eee", 7, 2), "aaa bbb\nccc ...");
    assert_eq!(word_wrap("first para\n\n\nsecond", 40, 5), "first para\nsecond");
    assert_eq!(word_wrap("a\u{7}b c", 40, 5), "ab c");
    assert_eq!(word_wrap("   ", 40, 5), "");
    assert_eq!(word_wrap("one\ntwo\nthree", 40, 2), "one\ntwo");
    assert_eq!(word_wrap("anything", 40, 0), "");
}

#[test]
fn word_wrap_cuts_on_character_boundaries() {
    // The last line "éé" is 4 bytes; a cut at max_chars - 3 = 1 byte moves back to 0.
    assert_eq!(word_wrap("éé éé", 4, 1), "...");
    // A cut on a character boundary stays where it is.
    assert_eq!(word_wrap("éé éé", 5, 1), "é...");
    // CJK text: the cut at 7 bytes moves back to 6, after two characters.
    assert_eq!(word_wrap("日本語 日本語", 10, 1), "日本...");
}

#[test]
fn python_strings_are_escaped() {
    assert_eq!(py_str("it's a\\b\nc"), "it\\'s a\\\\b\\nc");
    assert_eq!(py_str("plain"), "plain");
}

#[test]
fn avatar_urls() {
    assert_eq!(hd_avatar_url("https://pbs.twimg.com/p/a_normal.jpg"), "https://pbs.twimg.com/p/a_200x200.jpg");
    assert_eq!(hd_avatar_url("https://pbs.twimg.com/p/a.jpg"), "https://pbs.twimg.com/p/a.jpg");
}

#[test]
fn fonts_are_looked_up_in_order() {
    let c = font_candidates();
    assert_eq!(c.len(), 10);
    assert_eq!(c[0], "fonts/GeistVF.ttf");
    assert_eq!(c[1], "fonts/Geist-Regular.ttf");
    let mut present = vec![false; 10];
    assert_eq!(find_font(&present), None);
    present[8] = true;
    present[9] = true;
    assert_eq!(find_font(&present), Some("/usr/share/fonts/truetype/dejavu/DejaVuSans.ttf".to_string()));
    present[0] = true;
    present[1] = true;
    assert_eq!(find_font(&present), Some("fonts/GeistVF.ttf".to_string()));
}

#[test]
fn overlay_filter_graph() {
    let f = overlay_filter(false, 600, 338, 552, 311, 24, 120, 41);
    assert_eq!(
        f,
        "[0:v]copy[src];[src]scale=w=552:h=311:flags=lanczos[scaled];[scaled][3:v]alphamerge[rounded];color=c=black:s=600x472[bg];[bg][rounded]overlay=x=24:y=120[with_video];[1:v]scale=w=600:h=120:flags=lanczos[top_ds];[2:v]scale=w=600:h=41:flags=lanczos[bot_ds];[with_video][top_ds]overlay=x=0:y=0[with_top];[with_top][bot_ds]overlay=x=0:y=431[final];"
    );
    let g = overlay_filter(true, 1280, 720, 1228, 690, 26, 200, 60);
    assert!(g.starts_with("[0:v]scale=w=1280:h=720:flags=lanczos[src];"));
}

#[test]
fn overlay_arguments() {
    let a = overlay_ffmpeg_args("v.mp4", "t.png", "b.png", "m.png", "F", VideoEncoder::Libx264, "o.mp4");
    let expected: Vec<&str> = vec![
        "-y", "-i", "v.mp4", "-i", "t.png", "-i", "b.png", "-i", "m.png", "-filter_complex", "F",
        "-map", "[final]", "-map", "0:a?", "-c:v", "libx264", "-preset", "fast", "-crf", "20",
        "-threads", "0", "-c:a", "copy", "-movflags", "+faststart", "-shortest", "o.mp4",
    ];
    assert_eq!(a, expected);
}

#[test]
fn video_dimensions_from_ffprobe() {
    assert_eq!(parse_video_dims("1280,720\n").unwrap(), (1280, 720));
    assert_eq!(parse_video_dims(" +640,-360,9 ").unwrap(), (640, -360));
    match parse_video_dims("abc,720") {
        Err(AppError::Ffmpeg(m)) => assert_eq!(m, "failed to parse video width"),
        other => panic!("unexpected {:?}", other),
    }
    match parse_video_dims("1280") {
        Err(AppError::Ffmpeg(m)) => assert_eq!(m, "failed to parse video height"),
        other => panic!("unexpected {:?}", other),
    }
    match parse_video_dims("1280,99999999999") {
        Err(AppError::Ffmpeg(m)) => assert_eq!(m, "failed to parse video height"),
        other => panic!("unexpected {:?}", other),
    }
    assert!(parse_video_dims("-2147483648,2147483647").is_ok());
}

#[test]
fn card_heights_for_two_body_lines() {
    let h = card_heights("first line\nsecond line", 600, 18, 42, 14, 17, 6, 13, 14, 24).unwrap();
    assert_eq!(h.body_lines, 2);
    assert_eq!(h.header_h, 74);
    assert_eq!(h.top_bar, 128);
    assert_eq!(h.bot_bar, 41);
    assert_eq!(h.vid_dw, 552);
}

#[test]
fn card_heights_keep_room_for_one_line() {
    let h = card_heights("", 600, 18, 42, 14, 17, 6, 13, 14, 24).unwrap();
    assert_eq!(h.body_lines, 1);
    assert_eq!(h.top_bar, 105);
}

#[test]
fn card_heights_refuse_overflow() {
    assert!(card_heights("x", 600, 18, 42, 14, i32::MAX, 1, 13, 14, 24).is_none());
    assert!(card_heights("x", i32::MIN, 18, 42, 14, 17, 6, 13, 14, 24).is_none());
}

#[test]
fn word_wrap_stays_within_the_line_limit() {
    let text = "the quick brown fox jumps over the lazy dog\nand then\n\nruns far away from all of it";
    for max_lines in 1..6 {
        for max_chars in [4usize, 8, 12, 30] {
            let w = word_wrap(text, max_chars, max_lines);
            assert!(w.matches('\n').count() < max_lines);
        }
    }
    assert_eq!(word_wrap(text, 10, 0), "");
}

#[test]
fn render_sizes() {
    assert_eq!(render_size(1920, 1080, 720), (1280, 720, true));
    assert_eq!(render_size(640, 360, 0), (640, 360, false));
    assert_eq!(render_size(640, 361, 0), (640, 362, true));
}

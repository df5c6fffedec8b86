use twitter_dl::captions::{captions_answer, merge_srt_captions, strip_vtt_tags, vtt_to_srt};
use twitter_dl::error::AppError;

#[test]
fn test_vtt_to_srt_basic() {
    let vtt = r#"WEBVTT

00:00:01.000 --> 00:00:03.000
Hello world

00:00:04.500 --> 00:00:06.000
Second line"#;

    let srt = vtt_to_srt(vtt);
    assert!(srt.contains("00:00:01,000 --> 00:00:03,000"));
    assert!(srt.contains("Hello world"));
    assert!(srt.contains("00:00:04,500 --> 00:00:06,000"));
}

#[test]
fn test_strip_vtt_tags() {
    let line = "<c>Hello</c> <00:00:01.500><b>world</b>";
    assert_eq!(strip_vtt_tags(line), "Hello  world");
}

#[test]
fn vtt_to_srt_exact_output() {
    let vtt = "WEBVTT\n\n00:00:01.000 --> 00:00:03.000\nHello world\n\n00:00:04.500 --> 00:00:06.000\nSecond line";
    assert_eq!(
        vtt_to_srt(vtt),
        "1\n00:00:01,000 --> 00:00:03,000\nHello world\n\n2\n00:00:04,500 --> 00:00:06,000\nSecond line\n\n"
    );
}

#[test]
fn vtt_to_srt_drops_cue_settings_and_tags() {
    let vtt = "WEBVTT\n\n1\n00:00:01.000 --> 00:00:02.500  align:start position:10%\n<b>Bold</b> text\nsecond <i>line</i>\n";
    assert_eq!(
        vtt_to_srt(vtt),
        "1\n00:00:01,000 --> 00:00:02,500\nBold text\nsecond line\n\n"
    );
}

#[test]
fn vtt_to_srt_skips_notes_styles_and_empty_cues() {
    let vtt = "WEBVTT\n\nNOTE a comment\n00:00:00.000 --> 00:00:01.000\nignored\n\nSTYLE\n::cue {}\n\n00:00:01.000 --> 00:00:02.000\n\n00:00:02.000 --> 00:00:03.000\n<c></c>\n\nno timing here\n\n00:00:03.000 --> 00:00:04.000\nkept";
    assert_eq!(vtt_to_srt(vtt), "1\n00:00:03,000 --> 00:00:04,000\nkept\n\n");
}

#[test]
fn vtt_to_srt_handles_crlf_lines() {
    let vtt = "WEBVTT\r\n\r\n00:00:01.000 --> 00:00:02.000\r\nline one\r\nline two";
    // "\r\n\r\n" contains no "\n\n", so the whole document is one block
    // whose first line is the header: nothing is converted.
    assert_eq!(vtt_to_srt(vtt), "");
    let vtt2 = "00:00:01.000 --> 00:00:02.000\r\nline one\r\nline two";
    assert_eq!(vtt_to_srt(vtt2), "1\n00:00:01,000 --> 00:00:02,000\nline one\nline two\n\n");
}

#[test]
fn vtt_to_srt_of_empty_text_is_empty() {
    assert_eq!(vtt_to_srt(""), "");
    assert_eq!(vtt_to_srt("WEBVTT"), "");
}

#[test]
fn strip_vtt_tags_keeps_unclosed_and_empty_brackets() {
    assert_eq!(strip_vtt_tags("a <> b"), "a <> b");
    assert_eq!(strip_vtt_tags("a < b"), "a < b");
    assert_eq!(strip_vtt_tags("<<b>x"), "x");
    assert_eq!(strip_vtt_tags("1 > 0 <i>ok</i>"), "1 > 0 ok");
}

#[test]
fn merge_srt_renumbers_across_documents() {
    let a = "1\n00:00:01,000 --> 00:00:02,000\nfirst\n\n2\n00:00:03,000 --> 00:00:04,000\nsecond\n\n".to_string();
    let b = "7\n00:00:05,000 --> 00:00:06,000\nthird\n".to_string();
    assert_eq!(
        merge_srt_captions(vec![a, b]),
        "1\n00:00:01,000 --> 00:00:02,000\nfirst\n\n2\n00:00:03,000 --> 00:00:04,000\nsecond\n\n3\n00:00:05,000 --> 00:00:06,000\nthird"
    );
}

#[test]
fn merge_srt_drops_blocks_without_number_or_text() {
    let a = "x\nnot numbered\n\n5\n\n+3\n00:00:01,000 --> 00:00:02,000\nplus sign\n\n4294967296\ntoo big\n\n-1\nnegative".to_string();
    assert_eq!(merge_srt_captions(vec![a]), "1\n00:00:01,000 --> 00:00:02,000\nplus sign");
}

#[test]
fn merge_srt_of_nothing_is_empty() {
    assert_eq!(merge_srt_captions(vec![]), "");
    assert_eq!(merge_srt_captions(vec!["".to_string(), "\n\n".to_string()]), "");
}

#[test]
fn strip_vtt_tags_timestamp_tags_become_spaces() {
    assert_eq!(strip_vtt_tags("a<01:02.345>b"), "a b");
    assert_eq!(strip_vtt_tags("a<123:01:02.345>b"), "a b");
    assert_eq!(strip_vtt_tags("a<1:2.3>b"), "ab");
}

#[test]
fn captions_answer_needs_a_document() {
    assert!(matches!(captions_answer(vec![]), Err(AppError::NoCaptions)));
    let srt = captions_answer(vec!["1\n00:00:01,000 --> 00:00:02,000\nHi".to_string()]).unwrap();
    assert_eq!(srt, "1\n00:00:01,000 --> 00:00:02,000\nHi");
    // a document with no entry still answers, with an empty merge
    assert_eq!(captions_answer(vec!["".to_string()]).unwrap(), "");
}

#[test]
fn merging_a_merged_document_keeps_it() {
    let a = "1\n00:00:01,000 --> 00:00:02,000\nHello\n\n2\n00:00:03,000 --> 00:00:04,000\nTwo\nlines\n\n".to_string();
    let b = "7\n00:00:05,000 --> 00:00:06,000\nFrom the quote".to_string();
    let merged = merge_srt_captions(vec![a, b]);
    assert_eq!(merge_srt_captions(vec![merged.clone()]), merged);
}

#[test]
fn merging_a_converted_document_trims_it() {
    let vtt = "WEBVTT\n\n00:00:01.000 --> 00:00:02.000\nHello <b>world</b>\n\n00:00:03.000 --> 00:00:04.000 align:start\nBye";
    let srt = vtt_to_srt(vtt);
    assert_eq!(merge_srt_captions(vec![srt.clone()]), srt.trim_end());
}

use twitter_dl::error::AppError;
use twitter_dl::models::{
    MediaEntities, MediaItem, RawVariant, SubtitleTrack, SyndicationQuotedTweet, SyndicationTweet,
    SyndicationUser, TweetRef, VideoInfo,
};
use twitter_dl::twitter::{
    bitrate_to_label, build_tweet_info, check_syndication_reply, extract_tweet_id,
    find_subtitle_url, format_date, parse_variants, quoted_ref, reply_parent_id,
    syndication_url, to_base36, token_from_seed, tweet_id_from_capture, tweet_ref_from,
};

fn raw(content_type: &str, url: &str, bitrate: Option<u64>) -> RawVariant {
    RawVariant { content_type: content_type.to_string(), url: url.to_string(), bitrate }
}

fn user() -> SyndicationUser {
    SyndicationUser {
        screen_name: "jack".to_string(),
        name: "Jack".to_string(),
        profile_image_url_https: Some("https://pbs.twimg.com/a_normal.jpg".to_string()),
    }
}

fn tweet_with(media: Vec<MediaItem>) -> SyndicationTweet {
    SyndicationTweet {
        user: user(),
        full_text: "hello".to_string(),
        created_at: "2025-05-07T10:00:00.000Z".to_string(),
        extended_entities: Some(MediaEntities { media }),
        media_details: None,
        entities: None,
        quoted_tweet: None,
        in_reply_to_screen_name: None,
        in_reply_to_status_id_str: None,
        likes: Some(12),
    }
}

fn video_item(kind: &str, variants: Vec<RawVariant>, subtitles: Option<Vec<SubtitleTrack>>) -> MediaItem {
    MediaItem { media_type: kind.to_string(), video_info: Some(VideoInfo { variants, subtitles }) }
}

#[test]
fn bitrate_labels_at_thresholds() {
    assert_eq!(bitrate_to_label(10_368_000), "1080p");
    assert_eq!(bitrate_to_label(2_176_000), "1080p");
    assert_eq!(bitrate_to_label(2_175_999), "720p");
    assert_eq!(bitrate_to_label(832_000), "720p");
    assert_eq!(bitrate_to_label(831_999), "480p");
    assert_eq!(bitrate_to_label(600_000), "480p");
    assert_eq!(bitrate_to_label(599_999), "360p");
    assert_eq!(bitrate_to_label(1), "360p");
    assert_eq!(bitrate_to_label(0), "low");
}

#[test]
fn base36_values() {
    assert_eq!(to_base36(0), "0");
    assert_eq!(to_base36(35), "z");
    assert_eq!(to_base36(36), "10");
    assert_eq!(to_base36(1295), "zz");
    assert_eq!(to_base36(u64::MAX), "3w5e11264sgsf");
    assert_eq!(token_from_seed(4), "4");
    assert_eq!(token_from_seed(0), "0");
}

#[test]
fn base36_reads_back() {
    for n in [0u64, 1, 9, 10, 35, 36, 1295, 1296, 123_456_789, u64::MAX] {
        let s = to_base36(n);
        assert_eq!(u64::from_str_radix(&s, 36), Ok(n));
        assert!(s.chars().all(|c| c.is_ascii_digit() || c.is_ascii_lowercase()));
        assert_eq!(s == "0", n == 0);
        if n > 0 {
            assert!(!s.starts_with('0'));
        }
    }
}

#[test]
fn parse_variants_sorts_filters_and_dedups() {
    let t = tweet_with(vec![
        MediaItem { media_type: "photo".to_string(), video_info: None },
        video_item(
            "Video",
            vec![
                raw("video/mp4", "https://v/360a.mp4", Some(256_000)),
                raw("application/x-mpegURL", "https://v/pl.m3u8", None),
                raw("video/mp4", "https://v/720.mp4", Some(832_000)),
                raw("video/mp4", "https://v/1080b.mp4", Some(2_176_000)),
                raw("video/mp4", "https://v/360b.mp4", Some(320_000)),
                raw("video/mp4", "", Some(9_000_000)),
                raw("video/mp4", "https://v/1080.mp4", Some(10_368_000)),
            ],
            None,
        ),
    ]);
    let vs = parse_variants(&t).unwrap();
    let got: Vec<(String, String, u64)> = vs.iter().map(|v| (v.label.clone(), v.url.clone(), v.bitrate)).collect();
    assert_eq!(
        got,
        vec![
            ("1080p".to_string(), "https://v/1080.mp4".to_string(), 10_368_000),
            ("720p".to_string(), "https://v/720.mp4".to_string(), 832_000),
            ("360p".to_string(), "https://v/360b.mp4".to_string(), 320_000),
        ]
    );
}

#[test]
fn parse_variants_accepts_animated_gif_and_unknown_bitrate() {
    let t = tweet_with(vec![video_item("animated_gif", vec![raw("video/mp4", "https://v/g.mp4", None)], None)]);
    let vs = parse_variants(&t).unwrap();
    assert_eq!(vs.len(), 1);
    assert_eq!(vs[0].label, "low");
    assert_eq!(vs[0].bitrate, 0);
}

#[test]
fn parse_variants_falls_back_to_media_details() {
    let mut t = tweet_with(vec![]);
    t.media_details = Some(vec![video_item("video", vec![raw("video/mp4", "https://v/a.mp4", Some(700_000))], None)]);
    let vs = parse_variants(&t).unwrap();
    assert_eq!(vs[0].label, "480p");
}

#[test]
fn parse_variants_errors_with_no_video() {
    let t = tweet_with(vec![]);
    assert!(matches!(parse_variants(&t), Err(AppError::NoVideo)));
    let t = tweet_with(vec![MediaItem { media_type: "photo".to_string(), video_info: None }]);
    assert!(matches!(parse_variants(&t), Err(AppError::NoVideo)));
    let t = tweet_with(vec![MediaItem { media_type: "video".to_string(), video_info: None }]);
    assert!(matches!(parse_variants(&t), Err(AppError::NoVideo)));
    let t = tweet_with(vec![video_item("video", vec![raw("application/x-mpegURL", "https://v/p.m3u8", None)], None)]);
    assert!(matches!(parse_variants(&t), Err(AppError::NoVideo)));
}

#[test]
fn subtitle_url_prefers_english_then_first() {
    let subs = vec![
        SubtitleTrack { url: "https://s/fr.vtt".to_string(), language: "fr".to_string() },
        SubtitleTrack { url: "https://s/en.vtt".to_string(), language: "en-US".to_string() },
    ];
    let t = tweet_with(vec![video_item("video", vec![], Some(subs))]);
    assert_eq!(find_subtitle_url(&t), Some("https://s/en.vtt".to_string()));
    let subs = vec![SubtitleTrack { url: "https://s/fr.vtt".to_string(), language: "fr".to_string() }];
    let t = tweet_with(vec![video_item("video", vec![], Some(subs))]);
    assert_eq!(find_subtitle_url(&t), Some("https://s/fr.vtt".to_string()));
    let t = tweet_with(vec![video_item("video", vec![], Some(vec![]))]);
    assert_eq!(find_subtitle_url(&t), None);
    let t = tweet_with(vec![video_item("animated_gif", vec![], Some(vec![]))]);
    assert_eq!(find_subtitle_url(&t), None);
}

#[test]
fn tweet_ids_from_urls() {
    assert_eq!(extract_tweet_id("https://x.com/jack/status/20?s=46").unwrap(), "20");
    assert_eq!(extract_tweet_id("https://twitter.com/a_b/status/1789000000000000000").unwrap(), "1789000000000000000");
    assert!(matches!(extract_tweet_id("https://example.com/jack/status/20"), Err(AppError::InvalidUrl)));
    assert!(matches!(extract_tweet_id("https://x.com/jack"), Err(AppError::InvalidUrl)));
    assert!(matches!(tweet_id_from_capture(None), Err(AppError::InvalidUrl)));
    assert_eq!(tweet_id_from_capture(Some("7".to_string())).unwrap(), "7");
}

#[test]
fn dates_are_formatted_or_kept() {
    assert_eq!(format_date("2025-05-07T10:00:00Z"), "May 7, 2025");
    assert_eq!(format_date("2025-05-07T23:30:00.000-05:00"), "May 7, 2025");
    assert_eq!(format_date("Wed May 07 10:00:00 +0000 2025"), "May 7, 2025");
    assert_eq!(format_date("yesterday"), "yesterday");
}

#[test]
fn syndication_request_url() {
    assert_eq!(
        syndication_url("20", "4"),
        "https://cdn.syndication.twimg.com/tweet-result?id=20&lang=en&token=4&features=tfw_timeline_list%3A%3Btfw_follower_count_sunset%3Atrue"
    );
}

#[test]
fn syndication_replies_are_classified() {
    assert!(matches!(check_syndication_reply(404, "404 Not Found", "x"), Err(AppError::TweetNotFound)));
    match check_syndication_reply(500, "500 Internal Server Error", "x") {
        Err(AppError::TwitterApi(m)) => assert_eq!(m, "syndication API returned 500 Internal Server Error"),
        other => panic!("unexpected {:?}", other),
    }
    assert!(matches!(check_syndication_reply(200, "200 OK", "  {} \n"), Err(AppError::TweetNotFound)));
    assert!(matches!(check_syndication_reply(200, "200 OK", "   "), Err(AppError::TweetNotFound)));
    assert!(check_syndication_reply(200, "200 OK", "{\"id\":1}").is_ok());
}

#[test]
fn tweet_info_is_built_from_the_tweet() {
    let mut t = tweet_with(vec![video_item("video", vec![raw("video/mp4", "https://v/a.mp4", Some(700_000))], None)]);
    t.quoted_tweet = Some(SyndicationQuotedTweet { user: user(), full_text: "quoted".to_string(), id_str: Some("9".to_string()) });
    let info = build_tweet_info(&t, None, None).unwrap();
    assert_eq!(info.author, "jack");
    assert_eq!(info.display_name, "Jack");
    assert_eq!(info.created_at, "May 7, 2025");
    assert_eq!(info.text, "hello");
    assert_eq!(info.variants.len(), 1);
    assert_eq!(info.variants[0].label, "480p");
    assert_eq!(info.quoted_tweet.as_ref().unwrap().text, "quoted");
    assert!(info.in_reply_to.is_none());
    // a quoted tweet fetched by its id is shown in full
    let fetched = tweet_ref_from(&tweet_with(vec![video_item("video", vec![raw("video/mp4", "https://v/q.mp4", Some(832_000))], None)]));
    let info2 = build_tweet_info(&t, None, Some(fetched)).unwrap();
    let q = info2.quoted_tweet.unwrap();
    assert_eq!(q.variants.len(), 1);
    assert_eq!(q.variants[0].label, "720p");
    assert_eq!(q.created_at, "May 7, 2025");
    assert_eq!(info.likes, Some(12));
    assert!(matches!(build_tweet_info(&tweet_with(vec![]), None, None), Err(AppError::NoVideo)));
}

#[test]
fn tweet_refs() {
    let t = tweet_with(vec![]);
    let r: TweetRef = tweet_ref_from(&t);
    assert_eq!(r.author, "jack");
    assert_eq!(r.created_at, "May 7, 2025");
    assert!(r.variants.is_empty());
    let q = quoted_ref(&SyndicationQuotedTweet { user: user(), full_text: "q".to_string(), id_str: None });
    assert_eq!(q.text, "q");
    assert_eq!(q.display_name, "Jack");
    let mut t = tweet_with(vec![]);
    assert_eq!(reply_parent_id(&t), None);
    t.in_reply_to_status_id_str = Some("5".to_string());
    assert_eq!(reply_parent_id(&t), Some("5".to_string()));
}

#[test]
fn app_errors_have_status_and_message() {
    assert_eq!(AppError::TweetNotFound.status_code(), 404);
    assert_eq!(AppError::InvalidUrl.status_code(), 400);
    assert_eq!(AppError::TwitterApi("x".to_string()).status_code(), 502);
    assert_eq!(AppError::Network("x".to_string()).status_code(), 502);
    assert_eq!(AppError::Ffmpeg("x".to_string()).status_code(), 500);
    assert_eq!(AppError::Internal("x".to_string()).status_code(), 500);
    assert_eq!(AppError::NoVideo.message(), "No video found in this tweet");
    assert_eq!(AppError::NoCaptions.message(), "No captions found for this tweet");
    assert_eq!(AppError::Ffmpeg("boom".to_string()).message(), "ffmpeg error: boom");
    assert_eq!(AppError::TwitterApi("x".to_string()).message(), "Twitter API error: x");
}

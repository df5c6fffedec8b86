use twitter_dl::error::AppError;
use twitter_dl::models::{MediaEntities, MediaItem, RawVariant, SyndicationTweet, SyndicationUser, VideoInfo, VideoVariant};
use twitter_dl::video::{
    base_url, card_parent_id, hls_segment_urls, is_hls_url, is_preview_url_allowed, pick_variant,
    promoted_variant, promotion_parent_id, reply_variant,
};

fn vv(label: &str, url: &str, bitrate: u64) -> VideoVariant {
    VideoVariant { label: label.to_string(), url: url.to_string(), bitrate }
}

fn tweet(variants: Vec<(&str, u64)>, reply_to: Option<&str>) -> SyndicationTweet {
    let media = if variants.is_empty() {
        vec![]
    } else {
        vec![MediaItem {
            media_type: "video".to_string(),
            video_info: Some(VideoInfo {
                variants: variants
                    .into_iter()
                    .map(|(u, b)| RawVariant { content_type: "video/mp4".to_string(), url: u.to_string(), bitrate: Some(b) })
                    .collect(),
                subtitles: None,
            }),
        }]
    };
    SyndicationTweet {
        user: SyndicationUser { screen_name: "a".to_string(), name: "A".to_string(), profile_image_url_https: None },
        full_text: String::new(),
        created_at: String::new(),
        extended_entities: Some(MediaEntities { media }),
        media_details: None,
        entities: None,
        quoted_tweet: None,
        in_reply_to_screen_name: None,
        in_reply_to_status_id_str: reply_to.map(|s| s.to_string()),
        likes: None,
    }
}

#[test]
fn pick_variant_by_label_or_first() {
    let vs = vec![vv("1080p", "a", 9), vv("720p", "b", 5), vv("720p", "c", 4)];
    assert_eq!(pick_variant(&vs, Some("720p")).url, "b");
    assert_eq!(pick_variant(&vs, Some("4k")).url, "a");
    assert_eq!(pick_variant(&vs, None).url, "a");
}

#[test]
fn base_urls() {
    assert_eq!(base_url("https://v.twimg.com/ext/pl/x.m3u8"), "https://v.twimg.com/ext/pl/");
    assert_eq!(base_url("noslash"), "noslash");
    assert_eq!(base_url("a/"), "a/");
}

#[test]
fn hls_detection() {
    assert!(is_hls_url("https://v/x.m3u8?tag=1"));
    assert!(is_hls_url("https://v/ext/pl/abc"));
    assert!(!is_hls_url("https://v/vid/720/a.mp4"));
}

#[test]
fn hls_playlist_segments() {
    let playlist = "#EXTM3U\n#EXT-X-VERSION:3\nseg0.ts\n\n/ext/seg1.ts\nhttps://cdn/seg2.ts\n   \n";
    let urls = hls_segment_urls(playlist, "https://v.twimg.com/pl/list.m3u8").unwrap();
    assert_eq!(
        urls,
        vec![
            "https://v.twimg.com/pl/seg0.ts".to_string(),
            "https://v.twimg.com/pl/ext/seg1.ts".to_string(),
            "https://cdn/seg2.ts".to_string(),
        ]
    );
    assert!(matches!(hls_segment_urls("#EXTM3U\n", "https://v/p.m3u8"), Err(AppError::NoVideo)));
}

#[test]
fn preview_urls() {
    assert!(is_preview_url_allowed("https://video.twimg.com/ext_tw_video/1.mp4"));
    assert!(!is_preview_url_allowed("https://evil.com/https://video.twimg.com/"));
    assert!(!is_preview_url_allowed("http://video.twimg.com/x"));
}

#[test]
fn reply_promotion() {
    let reply = tweet(vec![], Some("5"));
    let parent = tweet(vec![("https://v/p.mp4", 2_000_000)], None);
    assert_eq!(promotion_parent_id(&reply), Some("5".to_string()));
    assert_eq!(promoted_variant(&reply, Some(&parent), None).unwrap().url, "https://v/p.mp4");
    assert!(matches!(promoted_variant(&reply, None, None), Err(AppError::NoVideo)));
    let own = tweet(vec![("https://v/o.mp4", 700_000)], Some("5"));
    assert_eq!(promotion_parent_id(&own), Some("5".to_string()));
    assert_eq!(promotion_parent_id(&parent), None);
    assert_eq!(card_parent_id(&own), None);
    assert_eq!(card_parent_id(&reply), Some("5".to_string()));
    // a reply serves the replied-to tweet's video even when it has its own
    assert_eq!(promoted_variant(&own, Some(&parent), None).unwrap().url, "https://v/p.mp4");
    assert_eq!(promoted_variant(&own, None, Some("480p")).unwrap().url, "https://v/o.mp4");
    assert_eq!(reply_variant(&own, None).unwrap().url, "https://v/o.mp4");
    assert!(reply_variant(&reply, None).is_none());
    assert!(reply_variant(&parent, None).is_none());
}

//! The data the service reads from the syndication endpoint and hands to its
//! clients, as plain values.

use vstd::prelude::*;

verus! {

/// One downloadable rendition of a video.
#[derive(Debug, Clone)]
pub struct VideoVariant {
    pub label: String,
    pub url: String,
    pub bitrate: u64,
}

/// The label, URL and bitrate of a variant.
pub open spec fn variant_view(v: VideoVariant) -> (Seq<char>, Seq<char>, u64) {
    (v.label@, v.url@, v.bitrate)
}

/// A tweet shown next to the main one (the quoted tweet or the replied-to tweet).
#[derive(Debug, Clone)]
pub struct TweetRef {
    pub author: String,
    pub display_name: String,
    pub text: String,
    pub avatar_url: Option<String>,
    pub variants: Vec<VideoVariant>,
    pub likes: Option<u64>,
    pub created_at: String,
}

/// What the info endpoint answers about a tweet.
#[derive(Debug, Clone)]
pub struct TweetInfo {
    pub author: String,
    pub display_name: String,
    pub created_at: String,
    pub text: String,
    pub quoted_tweet: Option<TweetRef>,
    pub in_reply_to: Option<TweetRef>,
    pub variants: Vec<VideoVariant>,
    pub avatar_url: Option<String>,
    pub likes: Option<u64>,
}

/// A tweet as the syndication endpoint describes it.
#[derive(Debug, Clone)]
pub struct SyndicationTweet {
    pub user: SyndicationUser,
    pub full_text: String,
    pub created_at: String,
    pub extended_entities: Option<MediaEntities>,
    pub media_details: Option<Vec<MediaItem>>,
    pub entities: Option<EntityBlock>,
    pub quoted_tweet: Option<SyndicationQuotedTweet>,
    pub in_reply_to_screen_name: Option<String>,
    pub in_reply_to_status_id_str: Option<String>,
    pub likes: Option<u64>,
}

/// The media attached to a tweet.
#[derive(Debug, Clone)]
pub struct MediaEntities {
    pub media: Vec<MediaItem>,
}

/// Entity block of a tweet; each media entity is kept as its JSON text.
#[derive(Debug, Clone)]
pub struct EntityBlock {
    pub media: Vec<String>,
}

/// The author of a tweet.
#[derive(Debug, Clone)]
pub struct SyndicationUser {
    pub screen_name: String,
    pub name: String,
    pub profile_image_url_https: Option<String>,
}

/// One media item of a tweet.
#[derive(Debug, Clone)]
pub struct MediaItem {
    pub media_type: String,
    pub video_info: Option<VideoInfo>,
}

/// The renditions and subtitle tracks of a video.
#[derive(Debug, Clone)]
pub struct VideoInfo {
    pub variants: Vec<RawVariant>,
    pub subtitles: Option<Vec<SubtitleTrack>>,
}

/// A rendition as the endpoint lists it.
#[derive(Debug, Clone)]
pub struct RawVariant {
    pub content_type: String,
    pub url: String,
    pub bitrate: Option<u64>,
}

/// A subtitle track of a video.
#[derive(Debug, Clone)]
pub struct SubtitleTrack {
    pub url: String,
    pub language: String,
}

/// The tweet that a tweet quotes.
#[derive(Debug, Clone)]
pub struct SyndicationQuotedTweet {
    pub user: SyndicationUser,
    pub full_text: String,
    pub id_str: Option<String>,
}

/// Body of an info request.
#[derive(Debug, Clone)]
pub struct InfoRequest {
    pub url: String,
}

/// Body of a download, captions or audio request.
#[derive(Debug, Clone)]
pub struct DownloadRequest {
    pub url: String,
    pub quality: Option<String>,
    pub include_quote: bool,
    pub include_reply: bool,
    pub render_card: bool,
}

/// Query of a preview request.
#[derive(Debug, Clone)]
pub struct PreviewQuery {
    pub url: String,
}

/// The media list a tweet's video is looked up in: the extended entities
/// when they list any media, else the media details when they list any.
pub open spec fn media_of(t: SyndicationTweet) -> Option<Seq<MediaItem>> {
    if t.extended_entities is Some && t.extended_entities->0.media@.len() > 0 {
        Some(t.extended_entities->0.media@)
    } else if t.media_details is Some && t.media_details->0@.len() > 0 {
        Some(t.media_details->0@)
    } else {
        None
    }
}

impl SyndicationTweet {
    /// The media list of the tweet: the extended entities when they list any
    /// media, else the media details when they list any.
    pub fn video_media(&self) -> (r: Option<&[MediaItem]>)
        ensures
            match r {
                Some(m) => media_of(*self) == Some(m@),
                None => media_of(*self) is None,
            },
    {
        if let Some(ee) = &self.extended_entities {
            if ee.media.len() > 0 {
                return Some(ee.media.as_slice());
            }
        }
        if let Some(md) = &self.media_details {
            if md.len() > 0 {
                return Some(md.as_slice());
            }
        }
        None
    }
}

} // verus!

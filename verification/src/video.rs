//! Choosing the variant to download and reading HLS playlists.

use vstd::prelude::*;
use crate::error::AppError;
use crate::models::{variant_view, SyndicationTweet, VideoVariant};
use crate::twitter::{copy_variant, offered_variants, parse_variants};
use crate::text::{
    append_all, begins_with, chars_of, contains, copy_range, has_substring, lines, lines_of,
    same_text, starts_with, string_of, trim, trimmed, views,
};

verus! {

broadcast use vstd::string::group_string_axioms;

/// The first variant at or after `i` labelled `q`.
pub open spec fn first_with_label(vs: Seq<(Seq<char>, Seq<char>, u64)>, q: Seq<char>, i: int) -> Option<
    int,
>
    decreases vs.len() - i,
{
    if i < 0 || i >= vs.len() {
        None
    } else if vs[i].0 == q {
        Some(i)
    } else {
        first_with_label(vs, q, i + 1)
    }
}

/// The index of the variant to download: the first one labelled with the
/// requested quality, else the first one.
pub open spec fn picked_index(vs: Seq<(Seq<char>, Seq<char>, u64)>, quality: Option<Seq<char>>) -> int {
    match quality {
        Some(q) => match first_with_label(vs, q, 0) {
            Some(i) => i,
            None => 0,
        },
        None => 0,
    }
}

/// The requested quality as text.
pub open spec fn quality_view(quality: Option<&str>) -> Option<Seq<char>> {
    match quality {
        Some(q) => Some(q@),
        None => None,
    }
}

/// The variant to download: the first one whose label is the requested
/// quality, else the first (best) one.
pub fn pick_variant<'a>(variants: &'a [VideoVariant], quality: Option<&str>) -> (v:
    &'a VideoVariant)
    requires
        variants.len() > 0,
    ensures
        *v == variants@[picked_index(
            variants@.map_values(|x: VideoVariant| variant_view(x)),
            quality_view(quality),
        )],
{
    let ghost vs = variants@.map_values(|x: VideoVariant| variant_view(x));
    if let Some(q) = quality {
        let mut i: usize = 0;
        while i < variants.len()
            invariant
                i <= variants.len(),
                quality == Some(q),
                vs == variants@.map_values(|x: VideoVariant| variant_view(x)),
                first_with_label(vs, q@, 0) == first_with_label(vs, q@, i as int),
            decreases variants.len() - i,
        {
            assert(vs[i as int].0 == variants@[i as int].label@);
            if same_text(variants[i].label.as_str(), q) {
                return &variants[i];
            }
            i = i + 1;
        }
    }
    &variants[0]
}

/// The variant served as the main download of a tweet, given the tweet it
/// replies to when it is a reply and that tweet could be fetched: a reply
/// serves the replied-to tweet's video when that one offers variants, else
/// the tweet's own.
pub fn promoted_variant(
    tweet: &SyndicationTweet,
    parent: Option<&SyndicationTweet>,
    quality: Option<&str>,
) -> (r: Result<VideoVariant, AppError>)
    ensures
        ({
            let own = offered_variants(*tweet);
            let from_parent = match parent {
                Some(p) => offered_variants(*p),
                None => Err(()),
            };
            match from_parent {
                Ok(vs) => r matches Ok(v) && variant_view(v) == vs[picked_index(
                    vs,
                    quality_view(quality),
                )],
                Err(_) => match own {
                    Ok(vs) => r matches Ok(v) && variant_view(v) == vs[picked_index(
                        vs,
                        quality_view(quality),
                    )],
                    Err(_) => r matches Err(e) && e is NoVideo,
                },
            }
        }),
{
    if let Some(p) = parent {
        if let Ok(vs) = parse_variants(p) {
            proof {
                lemma_picked_in_range(
                    vs@.map_values(|x: VideoVariant| variant_view(x)),
                    quality_view(quality),
                );
            }
            let v = pick_variant(vs.as_slice(), quality);
            return Ok(copy_variant(v));
        }
    }
    let vs = parse_variants(tweet)?;
    proof {
        lemma_picked_in_range(vs@.map_values(|x: VideoVariant| variant_view(x)), quality_view(quality));
    }
    let v = pick_variant(vs.as_slice(), quality);
    Ok(copy_variant(v))
}

/// The replied-to tweet to fetch for the main download: the one a reply
/// answers, whose video is promoted to the main download.
pub fn promotion_parent_id(tweet: &SyndicationTweet) -> (r: Option<String>)
    ensures
        match r {
            Some(id) => tweet.in_reply_to_status_id_str matches Some(x) && x@ == id@,
            None => tweet.in_reply_to_status_id_str is None,
        },
{
    match &tweet.in_reply_to_status_id_str {
        Some(id) => Some(id.clone()),
        None => None,
    }
}

/// The replied-to tweet shown on the card in place of the tweet: the one a
/// reply answers when the reply has no video of its own, since that tweet is
/// then the real content.
pub fn card_parent_id(tweet: &SyndicationTweet) -> (r: Option<String>)
    ensures
        match r {
            Some(id) => offered_variants(*tweet) is Err && (tweet.in_reply_to_status_id_str
                matches Some(x) && x@ == id@),
            None => offered_variants(*tweet) is Ok || tweet.in_reply_to_status_id_str is None,
        },
{
    if parse_variants(tweet).is_ok() {
        return None;
    }
    match &tweet.in_reply_to_status_id_str {
        Some(id) => Some(id.clone()),
        None => None,
    }
}

/// The variant of a reply's own video, downloaded after the main one when
/// asked: none when the tweet is not a reply or has no video.
pub fn reply_variant(tweet: &SyndicationTweet, quality: Option<&str>) -> (r: Option<VideoVariant>)
    ensures
        match (tweet.in_reply_to_status_id_str, offered_variants(*tweet)) {
            (Some(_), Ok(vs)) => r matches Some(v) && variant_view(v) == vs[picked_index(
                vs,
                quality_view(quality),
            )],
            _ => r is None,
        },
{
    if tweet.in_reply_to_status_id_str.is_none() {
        return None;
    }
    match parse_variants(tweet) {
        Ok(vs) => {
            proof {
                lemma_picked_in_range(
                    vs@.map_values(|x: VideoVariant| variant_view(x)),
                    quality_view(quality),
                );
            }
            let v = pick_variant(vs.as_slice(), quality);
            Some(copy_variant(v))
        },
        Err(_) => None,
    }
}

proof fn lemma_picked_in_range(vs: Seq<(Seq<char>, Seq<char>, u64)>, q: Option<Seq<char>>)
    requires
        vs.len() > 0,
    ensures
        0 <= picked_index(vs, q) < vs.len(),
{
    if let Some(qq) = q {
        lemma_first_with_label(vs, qq, 0);
    }
}

proof fn lemma_first_with_label(vs: Seq<(Seq<char>, Seq<char>, u64)>, q: Seq<char>, i: int)
    requires
        0 <= i,
    ensures
        first_with_label(vs, q, i) matches Some(j) ==> i <= j < vs.len(),
    decreases vs.len() - i,
{
    if i < vs.len() && vs[i].0 != q {
        lemma_first_with_label(vs, q, i + 1);
    }
}

/// Whether the preview proxy may fetch a URL: only videos on Twitter's CDN.
pub open spec fn preview_allowed(url: Seq<char>) -> bool {
    starts_with(url, "https://video.twimg.com/"@)
}

/// Whether the preview proxy may fetch a URL (`InvalidUrl` otherwise).
pub fn is_preview_url_allowed(url: &str) -> (b: bool)
    ensures
        b == preview_allowed(url@),
{
    begins_with(&chars_of(url), &chars_of("https://video.twimg.com/"))
}

/// The position of the last `/` in `s` before position `end`.
pub open spec fn last_slash(s: Seq<char>, end: int) -> Option<int>
    decreases end,
{
    if end <= 0 || end > s.len() {
        None
    } else if s[end - 1] == '/' {
        Some(end - 1)
    } else {
        last_slash(s, end - 1)
    }
}

/// A URL up to and including its last `/`, or the whole URL when it has none.
pub open spec fn base_of(url: Seq<char>) -> Seq<char> {
    match last_slash(url, url.len() as int) {
        Some(i) => url.take(i + 1),
        None => url,
    }
}

/// The URL of the directory a playlist lies in: up to and including its
/// last `/`, or the whole URL when it has none.
pub fn base_url(url: &str) -> (b: String)
    ensures
        b@ == base_of(url@),
{
    let v = chars_of(url);
    let mut end: usize = v.len();
    while end > 0 && v[end - 1] != '/'
        invariant
            end <= v.len(),
            last_slash(v@, v.len() as int) == last_slash(v@, end as int),
        decreases end,
    {
        end = end - 1;
    }
    if end == 0 {
        return url.to_string();
    }
    string_of(&copy_range(&v, 0, end))
}

/// Whether a variant is an HLS stream to be fetched segment by segment.
pub open spec fn is_hls(url: Seq<char>) -> bool {
    contains(url, ".m3u8"@) || contains(url, "/pl/"@)
}

/// Whether a variant's URL is an HLS playlist (`.m3u8`, or a `/pl/` path).
pub fn is_hls_url(url: &str) -> (b: bool)
    ensures
        b == is_hls(url@),
{
    let v = chars_of(url);
    has_substring(&v, &chars_of(".m3u8")) || has_substring(&v, &chars_of("/pl/"))
}

/// `s` without its trailing `/` characters.
pub open spec fn trim_end_slashes(s: Seq<char>) -> Seq<char>
    decreases s.len(),
{
    if s.len() > 0 && s.last() == '/' {
        trim_end_slashes(s.drop_last())
    } else {
        s
    }
}

/// `s` without its leading `/` characters.
pub open spec fn trim_start_slashes(s: Seq<char>) -> Seq<char>
    decreases s.len(),
{
    if s.len() > 0 && s[0] == '/' {
        trim_start_slashes(s.drop_first())
    } else {
        s
    }
}

/// Whether a playlist line names a segment: it is not a `#` tag or comment
/// and not blank.
pub open spec fn is_segment_line(l: Seq<char>) -> bool {
    !starts_with(l, "#"@) && trim(l).len() > 0
}

/// The URL of a segment line: the line itself when it starts with `http`,
/// else the line joined to the playlist's base with a single `/`.
pub open spec fn segment_url_of(l: Seq<char>, base: Seq<char>) -> Seq<char> {
    if starts_with(l, "http"@) {
        l
    } else {
        trim_end_slashes(base) + "/"@ + trim_start_slashes(l)
    }
}

/// The segment URLs of the given playlist lines, in order.
pub open spec fn segment_urls_of(ls: Seq<Seq<char>>, base: Seq<char>) -> Seq<Seq<char>>
    decreases ls.len(),
{
    if ls.len() == 0 {
        seq![]
    } else if is_segment_line(ls.last()) {
        segment_urls_of(ls.drop_last(), base).push(segment_url_of(ls.last(), base))
    } else {
        segment_urls_of(ls.drop_last(), base)
    }
}

/// The segment URLs of a playlist fetched from `playlist_url`.
pub open spec fn playlist_segments(playlist: Seq<char>, playlist_url: Seq<char>) -> Seq<Seq<char>> {
    segment_urls_of(lines(playlist), base_of(playlist_url))
}

/// `s` without its trailing `/` characters.
fn drop_end_slashes(s: &Vec<char>) -> (r: Vec<char>)
    ensures
        r@ == trim_end_slashes(s@),
{
    let mut end: usize = s.len();
    assert(s@.take(end as int) =~= s@);
    while end > 0 && s[end - 1] == '/'
        invariant
            end <= s.len(),
            trim_end_slashes(s@) == trim_end_slashes(s@.take(end as int)),
        decreases end,
    {
        assert(s@.take(end as int).drop_last() =~= s@.take(end - 1));
        end = end - 1;
    }
    copy_range(s, 0, end)
}

/// `s` without its leading `/` characters.
fn drop_start_slashes(s: &Vec<char>) -> (r: Vec<char>)
    ensures
        r@ == trim_start_slashes(s@),
{
    let mut start: usize = 0;
    assert(s@.skip(0) =~= s@);
    while start < s.len() && s[start] == '/'
        invariant
            start <= s.len(),
            trim_start_slashes(s@) == trim_start_slashes(s@.skip(start as int)),
        decreases s.len() - start,
    {
        assert(s@.skip(start as int).drop_first() =~= s@.skip(start + 1));
        start = start + 1;
    }
    assert(s@.skip(start as int) =~= s@.subrange(start as int, s.len() as int));
    copy_range(s, start, s.len())
}

/// The URLs of the media segments an HLS playlist lists, absolute or
/// relative to the playlist's directory; `NoVideo` when it lists none.
pub fn hls_segment_urls(playlist: &str, playlist_url: &str) -> (r: Result<Vec<String>, AppError>)
    ensures
        match r {
            Ok(us) => us@.len() > 0 && us@.map_values(|u: String| u@) == playlist_segments(
                playlist@,
                playlist_url@,
            ),
            Err(e) => playlist_segments(playlist@, playlist_url@).len() == 0 && e is NoVideo,
        },
{
    let base = chars_of(base_url(playlist_url).as_str());
    let base_trimmed = drop_end_slashes(&base);
    let ls = lines_of(&chars_of(playlist));
    let ghost sls = lines(playlist@);
    let hash = chars_of("#");
    let http = chars_of("http");
    let mut us: Vec<String> = Vec::new();
    let mut k: usize = 0;
    assert(views(ls@).len() == ls@.len());
    while k < ls.len()
        invariant
            k <= ls.len(),
            views(ls@) == sls,
            sls == lines(playlist@),
            base@ == base_of(playlist_url@),
            base_trimmed@ == trim_end_slashes(base@),
            hash@ == "#"@,
            http@ == "http"@,
            us@.map_values(|u: String| u@) == segment_urls_of(sls.take(k as int), base@),
        decreases ls.len() - k,
    {
        let l = &ls[k];
        proof {
            assert(sls.take(k + 1).drop_last() =~= sls.take(k as int));
            assert(sls.take(k + 1).last() == l@);
        }
        if !begins_with(l, &hash) && trimmed(l).len() > 0 {
            let u = if begins_with(l, &http) {
                string_of(l)
            } else {
                let mut v = copy_range(&base_trimmed, 0, base_trimmed.len());
                v.push('/');
                append_all(&mut v, &drop_start_slashes(l));
                proof {
                    reveal_strlit("/");
                    assert(v@ =~= trim_end_slashes(base@) + "/"@ + trim_start_slashes(l@));
                }
                string_of(&v)
            };
            us.push(u);
        }
        assert(us@.map_values(|u: String| u@) =~= segment_urls_of(sls.take(k + 1), base@));
        k = k + 1;
    }
    assert(sls.take(ls.len() as int) =~= sls);
    if us.len() == 0 {
        return Err(AppError::NoVideo);
    }
    Ok(us)
}

} // verus!

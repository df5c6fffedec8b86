//! Reading tweets of the syndication endpoint: the tweet id in a URL, the
//! request token, the video variants, the subtitle track and the info summary.

use vstd::prelude::*;
use crate::error::AppError;
use crate::models::{
    media_of, variant_view, MediaItem, RawVariant, SubtitleTrack, SyndicationQuotedTweet,
    SyndicationTweet, TweetInfo, TweetRef, VideoVariant,
};
use crate::text::{
    append_all, ascii_lower, begins_with, chars_of, contains, has_substring, lowered, same_chars,
    starts_with, string_of, trim, trimmed,
};

verus! {

broadcast use vstd::string::group_string_axioms;

/// The quality class of a bitrate: 4 for 1080p down to 0 for an unknown rate.
pub open spec fn quality_class(b: u64) -> nat {
    if b >= 2_176_000 {
        4
    } else if b >= 832_000 {
        3
    } else if b >= 600_000 {
        2
    } else if b > 0 {
        1
    } else {
        0
    }
}

/// The name of a quality class.
pub open spec fn class_name(c: nat) -> Seq<char> {
    if c == 4 {
        "1080p"@
    } else if c == 3 {
        "720p"@
    } else if c == 2 {
        "480p"@
    } else if c == 1 {
        "360p"@
    } else {
        "low"@
    }
}

/// The label of a bitrate.
pub open spec fn label_of(b: u64) -> Seq<char> {
    class_name(quality_class(b))
}

/// The quality label of a bitrate: 1080p from 2176 kbit/s, 720p from
/// 832 kbit/s, 480p from 600 kbit/s, 360p below that, "low" when the rate is unknown (0).
pub fn bitrate_to_label(bitrate: u64) -> (l: String)
    ensures
        l@ == label_of(bitrate),
{
    if bitrate >= 2_176_000 {
        "1080p".to_string()
    } else if bitrate >= 832_000 {
        "720p".to_string()
    } else if bitrate >= 600_000 {
        "480p".to_string()
    } else if bitrate > 0 {
        "360p".to_string()
    } else {
        "low".to_string()
    }
}

/// The base-36 digit for `d < 36`.
pub open spec fn base36_digit(d: nat) -> char {
    if d < 10 {
        (48 + d) as char
    } else {
        (87 + d) as char
    }
}

/// The lower-case base-36 representation of `n`, without leading zeros.
pub open spec fn base36(n: nat) -> Seq<char>
    decreases n,
{
    if n < 36 {
        seq![base36_digit(n)]
    } else {
        base36(n / 36).push(base36_digit(n % 36))
    }
}

/// Appends the base-36 representation of `n` to `out`.
fn push_base36(out: &mut Vec<char>, n: u64)
    ensures
        final(out)@ == old(out)@ + base36(n as nat),
    decreases n,
{
    if n >= 36 {
        push_base36(out, n / 36);
    }
    let d = (n % 36) as u8;
    let c = if d < 10 {
        (48u8 + d) as char
    } else {
        (87u8 + d) as char
    };
    assert(c == base36_digit((n % 36) as nat));
    out.push(c);
    if n < 36 {
        assert(n % 36 == n);
    }
    assert(out@ =~= old(out)@ + base36(n as nat));
}

/// The lower-case base-36 representation of `n`.
pub fn to_base36(n: u64) -> (s: String)
    ensures
        s@ == base36(n as nat),
{
    let mut v: Vec<char> = Vec::new();
    push_base36(&mut v, n);
    assert(v@ =~= base36(n as nat));
    crate::text::string_of(&v)
}

/// Whether `c` is a lower-case base-36 digit: `0`-`9` or `a`-`z`.
pub open spec fn is_base36_char(c: char) -> bool {
    ('0' <= c && c <= '9') || ('a' <= c && c <= 'z')
}

/// The value of a lower-case base-36 digit.
pub open spec fn base36_char_value(c: char) -> nat {
    if '0' <= c && c <= '9' {
        (c as nat - 48) as nat
    } else {
        (c as nat - 87) as nat
    }
}

/// The number that a string of lower-case base-36 digits writes
/// (`u64::from_str_radix(.., 36)` on such a string).
pub open spec fn base36_value(s: Seq<char>) -> nat
    decreases s.len(),
{
    if s.len() == 0 {
        0
    } else {
        base36_value(s.drop_last()) * 36 + base36_char_value(s.last())
    }
}

proof fn lemma_base36_digit(d: nat)
    requires
        d < 36,
    ensures
        base36_char_value(base36_digit(d)) == d,
        is_base36_char(base36_digit(d)),
        (base36_digit(d) == '0') <==> d == 0,
{
    if d < 10 {
        let c = (48 + d) as char;
        assert(c as nat == 48 + d);
        assert('0' as nat == 48);
        assert('9' as nat == 57);
    } else {
        let c = (87 + d) as char;
        assert(c as nat == 87 + d);
        assert('a' as nat == 97);
        assert('z' as nat == 122);
        assert('9' as nat == 57);
        assert('0' as nat == 48);
    }
}

/// The base-36 text of a number reads back as that number, uses only the
/// digits `0`-`9` and `a`-`z`, is `0` exactly for zero, and otherwise has no
/// leading zero.
pub proof fn law_base36(n: nat)
    ensures
        base36_value(base36(n)) == n,
        base36(n).len() > 0,
        forall|i: int| 0 <= i < base36(n).len() ==> is_base36_char(#[trigger] base36(n)[i]),
        (base36(n) == seq!['0']) <==> n == 0,
        n > 0 ==> base36(n)[0] != '0',
    decreases n,
{
    if n < 36 {
        lemma_base36_digit(n);
        assert(base36(n) == seq![base36_digit(n)]);
        assert(base36(n).drop_last() =~= Seq::<char>::empty());
        assert(base36_value(base36(n)) == base36_value(Seq::<char>::empty()) * 36 + n);
        if base36(n) == seq!['0'] {
            assert(base36(n)[0] == '0');
        }
    } else {
        let q = n / 36;
        let r = n % 36;
        law_base36(q);
        lemma_base36_digit(r);
        assert(q > 0);
        let s = base36(n);
        assert(s == base36(q).push(base36_digit(r)));
        assert(s.drop_last() =~= base36(q));
        assert(s.last() == base36_digit(r));
        assert(base36_char_value(base36_digit(r)) == r);
        assert(q * 36 + r == n);
        assert(base36_value(s) == base36_value(base36(q)) * 36 + r);
        assert(s[0] == base36(q)[0]);
        assert forall|i: int| 0 <= i < s.len() implies is_base36_char(#[trigger] s[i]) by {
            if i < s.len() - 1 {
                assert(s[i] == base36(q)[i]);
            }
        }
        assert(s.len() >= 2);
        assert(s != seq!['0']);
    }
}

/// Whether a media type names a video or an animated GIF, compared without
/// regard to ASCII case. (Unicode lower-casing gives the same answer here:
/// the only non-ASCII characters it maps into ASCII are U+0130, which also
/// yields a combining dot, and U+212A, which yields `k`; neither can complete
/// `video` or `animated_gif`.)
pub open spec fn is_video_or_gif(t: Seq<char>) -> bool {
    contains(ascii_lower(t), "video"@) || ascii_lower(t) == "animated_gif"@
}

/// Whether a media type names a video, compared without regard to ASCII case.
pub open spec fn is_video(t: Seq<char>) -> bool {
    contains(ascii_lower(t), "video"@)
}

/// The first media item at or after `i` whose type is a video (or, when
/// `gif_ok`, an animated GIF).
pub open spec fn first_video_item(m: Seq<MediaItem>, i: int, gif_ok: bool) -> Option<int>
    decreases m.len() - i,
{
    if i < 0 || i >= m.len() {
        None
    } else if (if gif_ok {
        is_video_or_gif(m[i].media_type@)
    } else {
        is_video(m[i].media_type@)
    }) {
        Some(i)
    } else {
        first_video_item(m, i + 1, gif_ok)
    }
}

/// Whether a listed rendition is offered for download: not an HLS playlist
/// and with a URL.
pub open spec fn keeps_variant(v: RawVariant) -> bool {
    v.content_type@ != "application/x-mpegURL"@ && v.url@.len() > 0
}

/// The (label, URL, bitrate) of a kept rendition; an unknown bitrate counts as 0.
pub open spec fn candidate_of(v: RawVariant) -> (Seq<char>, Seq<char>, u64) {
    let b = if v.bitrate is Some {
        v.bitrate->0
    } else {
        0
    };
    (label_of(b), v.url@, b)
}

/// The kept renditions, in listed order.
pub open spec fn candidates(raw: Seq<RawVariant>) -> Seq<(Seq<char>, Seq<char>, u64)>
    decreases raw.len(),
{
    if raw.len() == 0 {
        seq![]
    } else if keeps_variant(raw.last()) {
        candidates(raw.drop_last()).push(candidate_of(raw.last()))
    } else {
        candidates(raw.drop_last())
    }
}

/// Where a rendition of bitrate `b` goes in a list sorted by falling bitrate:
/// after every entry at or after `i` whose bitrate is at least `b`.
pub open spec fn insert_pos(s: Seq<(Seq<char>, Seq<char>, u64)>, b: u64, i: int) -> int
    decreases s.len() - i,
{
    if i < 0 || i >= s.len() {
        i
    } else if s[i].2 < b {
        i
    } else {
        insert_pos(s, b, i + 1)
    }
}

/// The renditions stably sorted by falling bitrate (what `sort_by` with a
/// descending bitrate comparison gives).
pub open spec fn sorted_by_bitrate(s: Seq<(Seq<char>, Seq<char>, u64)>) -> Seq<
    (Seq<char>, Seq<char>, u64),
>
    decreases s.len(),
{
    if s.len() == 0 {
        seq![]
    } else {
        let r = sorted_by_bitrate(s.drop_last());
        r.insert(insert_pos(r, s.last().2, 0), s.last())
    }
}

/// The renditions with each run of equal labels reduced to its first entry
/// (what `dedup_by` on the label gives).
pub open spec fn dedup_labels(s: Seq<(Seq<char>, Seq<char>, u64)>) -> Seq<
    (Seq<char>, Seq<char>, u64),
>
    decreases s.len(),
{
    if s.len() == 0 {
        seq![]
    } else {
        let r = dedup_labels(s.drop_last());
        if r.len() > 0 && r.last().0 == s.last().0 {
            r
        } else {
            r.push(s.last())
        }
    }
}

/// The variants offered for a tweet's video, or `Err` when the tweet has no
/// video item, the item has no video info, or no rendition is offered.
pub open spec fn offered_variants(t: SyndicationTweet) -> Result<
    Seq<(Seq<char>, Seq<char>, u64)>,
    (),
> {
    match media_of(t) {
        None => Err(()),
        Some(m) => match first_video_item(m, 0, true) {
            None => Err(()),
            Some(i) => match m[i].video_info {
                None => Err(()),
                Some(vi) => {
                    let vs = dedup_labels(sorted_by_bitrate(candidates(vi.variants@)));
                    if vs.len() == 0 {
                        Err(())
                    } else {
                        Ok(vs)
                    }
                },
            },
        },
    }
}

/// Whether the media type names a video (or an animated GIF when `gif_ok`).
fn video_type(t: &String, gif_ok: bool) -> (b: bool)
    ensures
        b == (if gif_ok {
            is_video_or_gif(t@)
        } else {
            is_video(t@)
        }),
{
    let low = lowered(&chars_of(t.as_str()));
    if has_substring(&low, &chars_of("video")) {
        return true;
    }
    gif_ok && same_chars(&low, &chars_of("animated_gif"))
}

/// The first media item whose type is a video (or an animated GIF when `gif_ok`).
fn find_video_item(m: &[MediaItem], gif_ok: bool) -> (r: Option<usize>)
    ensures
        match r {
            Some(i) => first_video_item(m@, 0, gif_ok) == Some(i as int) && i < m.len(),
            None => first_video_item(m@, 0, gif_ok) is None,
        },
{
    let mut i: usize = 0;
    while i < m.len()
        invariant
            i <= m.len(),
            first_video_item(m@, 0, gif_ok) == first_video_item(m@, i as int, gif_ok),
        decreases m.len() - i,
    {
        if video_type(&m[i].media_type, gif_ok) {
            return Some(i);
        }
        i = i + 1;
    }
    None
}

/// The kept renditions of a video, labelled, in listed order.
fn kept_variants(raw: &Vec<RawVariant>) -> (r: Vec<VideoVariant>)
    ensures
        r@.map_values(|v: VideoVariant| variant_view(v)) == candidates(raw@),
{
    let mut r: Vec<VideoVariant> = Vec::new();
    let mut k: usize = 0;
    while k < raw.len()
        invariant
            k <= raw.len(),
            r@.map_values(|v: VideoVariant| variant_view(v)) == candidates(raw@.take(k as int)),
        decreases raw.len() - k,
    {
        let v = &raw[k];
        proof {
            assert(raw@.take(k + 1).drop_last() =~= raw@.take(k as int));
            assert(raw@.take(k + 1).last() == raw@[k as int]);
        }
        if !crate::text::same_text(v.content_type.as_str(), "application/x-mpegURL")
            && !v.url.as_str().is_empty() {
            let bitrate = match v.bitrate {
                Some(b) => b,
                None => 0,
            };
            let vv = VideoVariant { label: bitrate_to_label(bitrate), url: v.url.clone(), bitrate };
            proof {
                assert(variant_view(vv) == candidate_of(raw@[k as int]));
            }
            r.push(vv);
            assert(r@.map_values(|v: VideoVariant| variant_view(v)) =~= candidates(
                raw@.take(k + 1),
            ));
        } else {
            assert(r@.map_values(|v: VideoVariant| variant_view(v)) =~= candidates(
                raw@.take(k + 1),
            ));
        }
        k = k + 1;
    }
    assert(raw@.take(raw.len() as int) =~= raw@);
    r
}

/// A copy of a variant.
pub(crate) fn copy_variant(v: &VideoVariant) -> (r: VideoVariant)
    ensures
        variant_view(r) == variant_view(*v),
{
    VideoVariant { label: v.label.clone(), url: v.url.clone(), bitrate: v.bitrate }
}

/// Where a rendition of bitrate `b` goes in `r`.
fn find_insert_pos(r: &Vec<VideoVariant>, b: u64) -> (p: usize)
    ensures
        p as int == insert_pos(r@.map_values(|v: VideoVariant| variant_view(v)), b, 0),
        p <= r.len(),
{
    let ghost rv = r@.map_values(|v: VideoVariant| variant_view(v));
    let mut p: usize = 0;
    while p < r.len() && r[p].bitrate >= b
        invariant
            p <= r.len(),
            rv == r@.map_values(|v: VideoVariant| variant_view(v)),
            insert_pos(rv, b, 0) == insert_pos(rv, b, p as int),
        decreases r.len() - p,
    {
        assert(rv[p as int].2 == r@[p as int].bitrate);
        p = p + 1;
    }
    if p < r.len() {
        assert(rv[p as int].2 == r@[p as int].bitrate);
    }
    p
}

/// The renditions stably sorted by falling bitrate.
fn sort_by_bitrate(vs: &Vec<VideoVariant>) -> (r: Vec<VideoVariant>)
    ensures
        r@.map_values(|v: VideoVariant| variant_view(v)) == sorted_by_bitrate(
            vs@.map_values(|v: VideoVariant| variant_view(v)),
        ),
{
    let ghost src = vs@.map_values(|v: VideoVariant| variant_view(v));
    let mut r: Vec<VideoVariant> = Vec::new();
    let mut k: usize = 0;
    while k < vs.len()
        invariant
            k <= vs.len(),
            src == vs@.map_values(|v: VideoVariant| variant_view(v)),
            r@.map_values(|v: VideoVariant| variant_view(v)) == sorted_by_bitrate(
                src.take(k as int),
            ),
        decreases vs.len() - k,
    {
        let x = copy_variant(&vs[k]);
        let p = find_insert_pos(&r, x.bitrate);
        let ghost before = r@.map_values(|v: VideoVariant| variant_view(v));
        r.insert(p, x);
        proof {
            assert(src.take(k + 1).drop_last() =~= src.take(k as int));
            assert(src.take(k + 1).last() == variant_view(x));
            assert(r@.map_values(|v: VideoVariant| variant_view(v)) =~= before.insert(
                p as int,
                variant_view(x),
            ));
        }
        k = k + 1;
    }
    assert(src.take(vs.len() as int) =~= src);
    r
}

/// The renditions with each run of equal labels reduced to its first entry.
fn dedup_by_label(vs: &Vec<VideoVariant>) -> (r: Vec<VideoVariant>)
    ensures
        r@.map_values(|v: VideoVariant| variant_view(v)) == dedup_labels(
            vs@.map_values(|v: VideoVariant| variant_view(v)),
        ),
{
    let ghost src = vs@.map_values(|v: VideoVariant| variant_view(v));
    let mut r: Vec<VideoVariant> = Vec::new();
    let mut k: usize = 0;
    while k < vs.len()
        invariant
            k <= vs.len(),
            src == vs@.map_values(|v: VideoVariant| variant_view(v)),
            r@.map_values(|v: VideoVariant| variant_view(v)) == dedup_labels(src.take(k as int)),
        decreases vs.len() - k,
    {
        let ghost before = r@.map_values(|v: VideoVariant| variant_view(v));
        proof {
            assert(src.take(k + 1).drop_last() =~= src.take(k as int));
            assert(src.take(k + 1).last() == variant_view(vs@[k as int]));
        }
        let same = r.len() > 0 && r[r.len() - 1].label == vs[k].label;
        if r.len() > 0 {
            assert(before.last() == variant_view(r@[r.len() - 1]));
        }
        if !same {
            let x = copy_variant(&vs[k]);
            r.push(x);
            assert(r@.map_values(|v: VideoVariant| variant_view(v)) =~= before.push(
                variant_view(x),
            ));
        }
        k = k + 1;
    }
    assert(src.take(vs.len() as int) =~= src);
    r
}

/// The variants offered for the tweet's video: its first video or animated
/// GIF item's renditions without HLS playlists or empty URLs, labelled by
/// bitrate, sorted by falling bitrate (stably), one per label; `NoVideo` when
/// there are none.
pub fn parse_variants(tweet: &SyndicationTweet) -> (r: Result<Vec<VideoVariant>, AppError>)
    ensures
        match r {
            Ok(vs) => offered_variants(*tweet) == Ok::<_, ()>(
                vs@.map_values(|v: VideoVariant| variant_view(v)),
            ),
            Err(e) => offered_variants(*tweet) is Err && e is NoVideo,
        },
{
    let media = match tweet.video_media() {
        Some(m) => m,
        None => {
            return Err(AppError::NoVideo);
        },
    };
    let i = match find_video_item(media, true) {
        Some(i) => i,
        None => {
            return Err(AppError::NoVideo);
        },
    };
    let info = match &media[i].video_info {
        Some(vi) => vi,
        None => {
            return Err(AppError::NoVideo);
        },
    };
    let kept = kept_variants(&info.variants);
    let sorted = sort_by_bitrate(&kept);
    let variants = dedup_by_label(&sorted);
    if variants.len() == 0 {
        return Err(AppError::NoVideo);
    }
    Ok(variants)
}


/// Every entry's label is the label of its bitrate.
pub open spec fn labelled_by_bitrate(s: Seq<(Seq<char>, Seq<char>, u64)>) -> bool {
    forall|i: int| 0 <= i < s.len() ==> (#[trigger] s[i]).0 == label_of(s[i].2)
}

/// The entries are ordered by falling bitrate.
pub open spec fn falling_bitrate(s: Seq<(Seq<char>, Seq<char>, u64)>) -> bool {
    forall|i: int, j: int| 0 <= i < j < s.len() ==> (#[trigger] s[i]).2 >= (#[trigger] s[j]).2
}

/// No two entries share a label.
pub open spec fn distinct_labels(s: Seq<(Seq<char>, Seq<char>, u64)>) -> bool {
    forall|i: int, j: int| 0 <= i < j < s.len() ==> (#[trigger] s[i]).0 != (#[trigger] s[j]).0
}

proof fn lemma_class_names_distinct(a: nat, b: nat)
    requires
        a <= 4,
        b <= 4,
        a != b,
    ensures
        class_name(a) != class_name(b),
{
    reveal_strlit("1080p");
    reveal_strlit("720p");
    reveal_strlit("480p");
    reveal_strlit("360p");
    reveal_strlit("low");
    if a == 4 || b == 4 || a == 0 || b == 0 {
        assert(class_name(a).len() != class_name(b).len());
    } else {
        assert(class_name(a)[0] != class_name(b)[0]);
    }
}

proof fn lemma_candidates_labelled(raw: Seq<RawVariant>)
    ensures
        labelled_by_bitrate(candidates(raw)),
        forall|x| candidates(raw).contains(x) ==> exists|i: int|
            0 <= i < raw.len() && keeps_variant(raw[i]) && x == candidate_of(#[trigger] raw[i]),
    decreases raw.len(),
{
    if raw.len() > 0 {
        lemma_candidates_labelled(raw.drop_last());
        let r = candidates(raw.drop_last());
        assert forall|x| candidates(raw).contains(x) implies exists|i: int|
            0 <= i < raw.len() && keeps_variant(raw[i]) && x == candidate_of(
                #[trigger] raw[i],
            ) by {
            if r.contains(x) {
                let i = choose|i: int|
                    0 <= i < raw.drop_last().len() && keeps_variant(raw.drop_last()[i]) && x
                        == candidate_of(#[trigger] raw.drop_last()[i]);
                assert(raw[i] == raw.drop_last()[i]);
            } else {
                let k = choose|k: int| 0 <= k < candidates(raw).len() && candidates(raw)[k] == x;
                assert(k == r.len());
                assert(raw[raw.len() - 1] == raw.last());
            }
        }
    }
}

proof fn lemma_insert_pos(s: Seq<(Seq<char>, Seq<char>, u64)>, b: u64, i: int)
    requires
        0 <= i <= s.len(),
    ensures
        i <= insert_pos(s, b, i) <= s.len(),
        forall|j: int| i <= j < insert_pos(s, b, i) ==> s[j].2 >= b,
        insert_pos(s, b, i) < s.len() ==> s[insert_pos(s, b, i)].2 < b,
    decreases s.len() - i,
{
    if i < s.len() && s[i].2 >= b {
        lemma_insert_pos(s, b, i + 1);
    }
}

proof fn lemma_sorted(s: Seq<(Seq<char>, Seq<char>, u64)>)
    ensures
        falling_bitrate(sorted_by_bitrate(s)),
        sorted_by_bitrate(s).len() == s.len(),
        forall|x| sorted_by_bitrate(s).contains(x) <==> s.contains(x),
    decreases s.len(),
{
    if s.len() > 0 {
        let r = sorted_by_bitrate(s.drop_last());
        lemma_sorted(s.drop_last());
        let x = s.last();
        let p = insert_pos(r, x.2, 0);
        lemma_insert_pos(r, x.2, 0);
        let t = r.insert(p, x);
        assert forall|i: int, j: int| 0 <= i < j < t.len() implies (#[trigger] t[i]).2 >= (
        #[trigger] t[j]).2 by {
            if j < p {
            } else if j == p {
                assert(t[i] == r[i]);
            } else if i == p {
                assert(t[j] == r[j - 1]);
                assert(r[p].2 >= r[j - 1].2);
            } else if i < p {
                assert(t[i] == r[i]);
                assert(t[j] == r[j - 1]);
            } else {
                assert(t[i] == r[i - 1]);
                assert(t[j] == r[j - 1]);
            }
        }
        assert forall|y| t.contains(y) <==> s.contains(y) by {
            if t.contains(y) {
                let k = choose|k: int| 0 <= k < t.len() && t[k] == y;
                if k == p {
                    assert(s[s.len() - 1] == y);
                } else {
                    if k < p {
                        assert(r[k] == y);
                    } else {
                        assert(r[k - 1] == y);
                    }
                    assert(r.contains(y));
                    assert(s.drop_last().contains(y));
                    let m = choose|m: int| 0 <= m < s.drop_last().len() && s.drop_last()[m] == y;
                    assert(s[m] == s.drop_last()[m]);
                }
            }
            if s.contains(y) {
                let m = choose|m: int| 0 <= m < s.len() && s[m] == y;
                if m == s.len() - 1 {
                    assert(t[p] == y);
                } else {
                    assert(s.drop_last()[m] == y);
                    assert(s.drop_last().contains(y));
                    assert(r.contains(y));
                    let k = choose|k: int| 0 <= k < r.len() && r[k] == y;
                    if k < p {
                        assert(t[k] == y);
                    } else {
                        assert(t[k + 1] == y);
                    }
                }
            }
        }
    }
}

proof fn lemma_dedup(s: Seq<(Seq<char>, Seq<char>, u64)>)
    requires
        falling_bitrate(s),
        labelled_by_bitrate(s),
    ensures
        falling_bitrate(dedup_labels(s)),
        labelled_by_bitrate(dedup_labels(s)),
        distinct_labels(dedup_labels(s)),
        forall|x| dedup_labels(s).contains(x) ==> s.contains(x),
        s.len() > 0 ==> dedup_labels(s).len() > 0,
    decreases s.len(),
{
    if s.len() > 0 {
        let d = s.drop_last();
        assert(falling_bitrate(d));
        assert(labelled_by_bitrate(d)) by {
            assert forall|i: int| 0 <= i < d.len() implies (#[trigger] d[i]).0 == label_of(d[i].2) by {
                assert(d[i] == s[i]);
            }
        }
        lemma_dedup(d);
        let r = dedup_labels(d);
        let x = s.last();
        assert(x == s[s.len() - 1]);
        assert(x.0 == label_of(x.2));
        // every kept entry comes before the last one, so its bitrate is not lower
        assert forall|i: int| 0 <= i < r.len() implies (#[trigger] r[i]).2 >= x.2 by {
            assert(r.contains(r[i]));
            assert(d.contains(r[i]));
            let m = choose|m: int| 0 <= m < d.len() && d[m] == r[i];
            assert(s[m] == d[m]);
            assert(s[m].2 >= s[s.len() - 1].2);
        }
        if !(r.len() > 0 && r.last().0 == x.0) {
            let t = r.push(x);
            assert forall|i: int, j: int| 0 <= i < j < t.len() implies (#[trigger] t[i]).0 != (
            #[trigger] t[j]).0 by {
                if j == t.len() - 1 {
                    assert(t[i] == r[i]);
                    let l = r.last();
                    assert(l == r[r.len() - 1]);
                    if i < r.len() - 1 {
                        assert(r[i].2 >= l.2);
                    }
                    assert(quality_class(r[i].2) >= quality_class(l.2));
                    assert(quality_class(l.2) >= quality_class(x.2));
                    if r[i].0 == x.0 {
                        if quality_class(r[i].2) != quality_class(x.2) {
                            lemma_class_names_distinct(quality_class(r[i].2), quality_class(x.2));
                        }
                        if quality_class(l.2) != quality_class(x.2) {
                            lemma_class_names_distinct(quality_class(l.2), quality_class(x.2));
                        }
                    }
                } else {
                    assert(t[i] == r[i]);
                    assert(t[j] == r[j]);
                }
            }
            assert forall|i: int, j: int| 0 <= i < j < t.len() implies (#[trigger] t[i]).2 >= (
            #[trigger] t[j]).2 by {
                if j == t.len() - 1 {
                    assert(t[i] == r[i]);
                } else {
                    assert(t[i] == r[i]);
                    assert(t[j] == r[j]);
                }
            }
            assert forall|y| t.contains(y) implies s.contains(y) by {
                let k = choose|k: int| 0 <= k < t.len() && t[k] == y;
                if k == t.len() - 1 {
                    assert(s[s.len() - 1] == y);
                } else {
                    assert(r[k] == y);
                    assert(r.contains(y));
                    assert(d.contains(y));
                    let m = choose|m: int| 0 <= m < d.len() && d[m] == y;
                    assert(s[m] == d[m]);
                }
            }
        } else {
            assert forall|y| r.contains(y) implies s.contains(y) by {
                assert(d.contains(y));
                let m = choose|m: int| 0 <= m < d.len() && d[m] == y;
                assert(s[m] == d[m]);
            }
        }
    }
}

/// The variants offered for a tweet are ordered by falling bitrate, carry
/// the label of their bitrate, never share a label, and each is a listed
/// rendition of the tweet's video that is not an HLS playlist and has a URL.
pub proof fn law_offered_variants(t: SyndicationTweet)
    requires
        offered_variants(t) is Ok,
    ensures
        ({
            let vs = offered_variants(t)->Ok_0;
            let m = media_of(t)->Some_0;
            let raw = m[first_video_item(m, 0, true)->Some_0].video_info->Some_0.variants@;
            &&& vs.len() > 0
            &&& falling_bitrate(vs)
            &&& labelled_by_bitrate(vs)
            &&& distinct_labels(vs)
            &&& forall|x| #[trigger] vs.contains(x) ==> exists|i: int|
                0 <= i < raw.len() && keeps_variant(raw[i]) && x == candidate_of(#[trigger] raw[i])
        }),
{
    let m = media_of(t)->Some_0;
    let raw = m[first_video_item(m, 0, true)->Some_0].video_info->Some_0.variants@;
    let c = candidates(raw);
    lemma_candidates_labelled(raw);
    lemma_sorted(c);
    let s = sorted_by_bitrate(c);
    assert(labelled_by_bitrate(s)) by {
        assert forall|i: int| 0 <= i < s.len() implies (#[trigger] s[i]).0 == label_of(s[i].2) by {
            assert(s.contains(s[i]));
            assert(c.contains(s[i]));
            let k = choose|k: int| 0 <= k < c.len() && c[k] == s[i];
        }
    }
    lemma_dedup(s);
    let vs = dedup_labels(s);
    assert(offered_variants(t)->Ok_0 == vs);
    assert forall|x| #[trigger] vs.contains(x) implies exists|i: int|
        0 <= i < raw.len() && keeps_variant(raw[i]) && x == candidate_of(#[trigger] raw[i]) by {
        assert(s.contains(x));
        assert(c.contains(x));
    }
}


/// The first subtitle track at or after `i` whose language starts with `en`.
pub open spec fn first_english(subs: Seq<SubtitleTrack>, i: int) -> Option<int>
    decreases subs.len() - i,
{
    if i < 0 || i >= subs.len() {
        None
    } else if starts_with(subs[i].language@, "en"@) {
        Some(i)
    } else {
        first_english(subs, i + 1)
    }
}

/// The URL of the subtitle track of a tweet's first video item: its first
/// English track, else its first track.
pub open spec fn subtitle_url_of(t: SyndicationTweet) -> Option<Seq<char>> {
    match media_of(t) {
        None => None,
        Some(m) => match first_video_item(m, 0, false) {
            None => None,
            Some(i) => match m[i].video_info {
                None => None,
                Some(vi) => match vi.subtitles {
                    None => None,
                    Some(subs) => match first_english(subs@, 0) {
                        Some(j) => Some(subs@[j].url@),
                        None => if subs@.len() > 0 {
                            Some(subs@[0].url@)
                        } else {
                            None
                        },
                    },
                },
            },
        },
    }
}

/// The URL of the subtitle track to convert: of the tweet's first video item,
/// the first track whose language starts with `en`, else the first track.
pub fn find_subtitle_url(tweet: &SyndicationTweet) -> (r: Option<String>)
    ensures
        match r {
            Some(u) => subtitle_url_of(*tweet) == Some(u@),
            None => subtitle_url_of(*tweet) is None,
        },
{
    let media = match tweet.video_media() {
        Some(m) => m,
        None => {
            return None;
        },
    };
    let i = match find_video_item(media, false) {
        Some(i) => i,
        None => {
            return None;
        },
    };
    let info = match &media[i].video_info {
        Some(vi) => vi,
        None => {
            return None;
        },
    };
    let subs = match &info.subtitles {
        Some(s) => s,
        None => {
            return None;
        },
    };
    let en = chars_of("en");
    let mut j: usize = 0;
    #[verifier::loop_isolation(false)]
    while j < subs.len()
        invariant
            j <= subs.len(),
            en@ == "en"@,
            first_english(subs@, 0) == first_english(subs@, j as int),
        decreases subs.len() - j,
    {
        if begins_with(&chars_of(subs[j].language.as_str()), &en) {
            return Some(subs[j].url.clone());
        }
        j = j + 1;
    }
    if subs.len() > 0 {
        Some(subs[0].url.clone())
    } else {
        None
    }
}

/// The tweet id that the pattern `(?:twitter\.com|x\.com)/[^/]+/status/(\d+)`
/// captures in a URL (its leftmost match, first group), if it matches.
pub uninterp spec fn tweet_id_capture(url: Seq<char>) -> Option<Seq<char>>;

/// Calls `regex::Regex::captures` with the pattern
/// `(?:twitter\.com|x\.com)/[^/]+/status/(\d+)` and takes the first group.
/// The contract only names the result (`tweet_id_capture`): it depends on the
/// URL alone. The pattern is a valid constant, so the compilation succeeds.
#[verifier::external_body]
fn regex_tweet_id(url: &str) -> (r: Option<String>)
    ensures
        match r {
            Some(id) => tweet_id_capture(url@) == Some(id@),
            None => tweet_id_capture(url@) is None,
        },
{
    regex::Regex::new(r"(?:twitter\.com|x\.com)/[^/]+/status/(\d+)").expect(
        "regex is valid",
    ).captures(url).and_then(|c| c.get(1)).map(|m| m.as_str().to_string())
}

/// The tweet id, from what the URL pattern captured: `InvalidUrl` when it
/// captured nothing.
pub fn tweet_id_from_capture(capture: Option<String>) -> (r: Result<String, AppError>)
    ensures
        match capture {
            Some(id) => r matches Ok(x) && x@ == id@,
            None => r matches Err(e) && e is InvalidUrl,
        },
{
    match capture {
        Some(id) => Ok(id),
        None => Err(AppError::InvalidUrl),
    }
}

/// The id of the tweet a twitter.com or x.com status URL points to.
pub fn extract_tweet_id(url: &str) -> (r: Result<String, AppError>)
    ensures
        match tweet_id_capture(url@) {
            Some(id) => r matches Ok(x) && x@ == id,
            None => r matches Err(e) && e is InvalidUrl,
        },
{
    tweet_id_from_capture(regex_tweet_id(url))
}

/// The token of a request for a tweet, from the seed computed off its id:
/// the seed in lower-case base 36.
pub fn token_from_seed(seed: u64) -> (t: String)
    ensures
        t@ == base36(seed as nat),
{
    to_base36(seed)
}


/// The calendar date of an RFC 3339 timestamp written as `%b %-d, %Y`
/// ("May 7, 2025"), if the text parses as one.
pub uninterp spec fn rfc3339_display_date(raw: Seq<char>) -> Option<Seq<char>>;

/// The calendar date of a timestamp in the syndication format
/// `%a %b %d %H:%M:%S %z %Y` written as `%b %-d, %Y`, if the text parses so.
pub uninterp spec fn syndication_display_date(raw: Seq<char>) -> Option<Seq<char>>;

/// Calls `chrono::DateTime::parse_from_rfc3339` and, when it succeeds,
/// writes the date with `format("%b %-d, %Y")`. The contract only names the
/// result: chrono parses and writes with fixed English names and the offset
/// given in the text, so it depends on the text alone.
#[verifier::external_body]
fn chrono_rfc3339_date(raw: &str) -> (r: Option<String>)
    ensures
        match r {
            Some(d) => rfc3339_display_date(raw@) == Some(d@),
            None => rfc3339_display_date(raw@) is None,
        },
{
    chrono::DateTime::parse_from_rfc3339(raw).ok().map(|dt| dt.format("%b %-d, %Y").to_string())
}

/// Calls `chrono::DateTime::parse_from_str` with `%a %b %d %H:%M:%S %z %Y`
/// and, when it succeeds, writes the date with `format("%b %-d, %Y")`. The
/// contract only names the result, which depends on the text alone.
#[verifier::external_body]
fn chrono_syndication_date(raw: &str) -> (r: Option<String>)
    ensures
        match r {
            Some(d) => syndication_display_date(raw@) == Some(d@),
            None => syndication_display_date(raw@) is None,
        },
{
    chrono::DateTime::parse_from_str(raw, "%a %b %d %H:%M:%S %z %Y").ok().map(
        |dt| dt.format("%b %-d, %Y").to_string(),
    )
}

/// The date shown for a tweet: its RFC 3339 reading, else its syndication
/// format reading, else the raw text.
pub open spec fn display_date(raw: Seq<char>) -> Seq<char> {
    match rfc3339_display_date(raw) {
        Some(d) => d,
        None => match syndication_display_date(raw) {
            Some(d) => d,
            None => raw,
        },
    }
}

/// The date text shown for a tweet, from the two readings of its raw date.
pub fn choose_date_text(raw: &str, rfc3339: Option<String>, syndication: Option<String>) -> (r:
    String)
    ensures
        r@ == (match rfc3339 {
            Some(d) => d@,
            None => match syndication {
                Some(d) => d@,
                None => raw@,
            },
        }),
{
    match rfc3339 {
        Some(d) => d,
        None => match syndication {
            Some(d) => d,
            None => raw.to_string(),
        },
    }
}

/// The date of a tweet as "May 7, 2025", or the raw text when it does not
/// parse in either known format.
pub fn format_date(raw: &str) -> (r: String)
    ensures
        r@ == display_date(raw@),
{
    let first = chrono_rfc3339_date(raw);
    if first.is_some() {
        return choose_date_text(raw, first, None);
    }
    choose_date_text(raw, None, chrono_syndication_date(raw))
}

/// The syndication endpoint's URL for a tweet id and request token.
pub open spec fn syndication_url_of(tweet_id: Seq<char>, token: Seq<char>) -> Seq<char> {
    "https://cdn.syndication.twimg.com/tweet-result?id="@ + tweet_id + "&lang=en&token="@ + token
        + "&features=tfw_timeline_list%3A%3Btfw_follower_count_sunset%3Atrue"@
}

/// The syndication endpoint's URL for a tweet id and request token.
pub fn syndication_url(tweet_id: &str, token: &str) -> (u: String)
    ensures
        u@ == syndication_url_of(tweet_id@, token@),
{
    let mut v = chars_of("https://cdn.syndication.twimg.com/tweet-result?id=");
    append_all(&mut v, &chars_of(tweet_id));
    append_all(&mut v, &chars_of("&lang=en&token="));
    append_all(&mut v, &chars_of(token));
    append_all(&mut v, &chars_of("&features=tfw_timeline_list%3A%3Btfw_follower_count_sunset%3Atrue"));
    string_of(&v)
}

/// Whether an answer of the syndication endpoint is an API failure: a
/// status outside 200..=299 other than 404.
pub open spec fn reply_failed(status: u16) -> bool {
    status != 404 && !(200 <= status <= 299)
}

/// Whether an answer of the syndication endpoint says the tweet is missing:
/// status 404, or a successful answer whose body is empty or `{}`.
pub open spec fn reply_missing(status: u16, body: Seq<char>) -> bool {
    status == 404 || (200 <= status <= 299 && (trim(body) == "{}"@ || trim(body).len() == 0))
}

/// Checks an answer of the syndication endpoint before its body is parsed:
/// a failure quotes the status line, a missing tweet is `TweetNotFound`,
/// otherwise the body is the tweet.
pub fn check_syndication_reply(status: u16, status_line: &str, body: &str) -> (r: Result<(), AppError>)
    ensures
        reply_failed(status) ==> (r matches Err(AppError::TwitterApi(m)) && m@
            == "syndication API returned "@ + status_line@),
        reply_missing(status, body@) ==> (r matches Err(e) && e is TweetNotFound),
        !reply_failed(status) && !reply_missing(status, body@) ==> r is Ok,
{
    if status == 404 {
        return Err(AppError::TweetNotFound);
    }
    if !(200 <= status && status <= 299) {
        let mut v = chars_of("syndication API returned ");
        append_all(&mut v, &chars_of(status_line));
        return Err(AppError::TwitterApi(string_of(&v)));
    }
    let t = trimmed(&chars_of(body));
    if t.len() == 0 || same_chars(&t, &chars_of("{}")) {
        return Err(AppError::TweetNotFound);
    }
    Ok(())
}

/// A copy of an optional string.
fn copy_opt(s: &Option<String>) -> (r: Option<String>)
    ensures
        r == *s,
{
    match s {
        Some(x) => Some(x.clone()),
        None => None,
    }
}

/// The summary of a tweet shown beside another one.
pub open spec fn ref_of_tweet(t: SyndicationTweet, r: TweetRef) -> bool {
    &&& r.author@ == t.user.screen_name@
    &&& r.display_name@ == t.user.name@
    &&& r.text@ == t.full_text@
    &&& r.avatar_url == t.user.profile_image_url_https
    &&& r.variants@.map_values(|v: VideoVariant| variant_view(v)) == (match offered_variants(t) {
        Ok(vs) => vs,
        Err(_) => Seq::empty(),
    })
    &&& r.likes == t.likes
    &&& r.created_at@ == display_date(t.created_at@)
}

/// The summary of a tweet shown beside another one: its author, text,
/// avatar, offered variants (none when it has no video), likes and date.
pub fn tweet_ref_from(tweet: &SyndicationTweet) -> (r: TweetRef)
    ensures
        ref_of_tweet(*tweet, r),
        r.author@ == tweet.user.screen_name@,
        r.text@ == tweet.full_text@,
        r.likes == tweet.likes,
{
    let variants = match parse_variants(tweet) {
        Ok(vs) => vs,
        Err(_) => Vec::new(),
    };
    proof {
        if offered_variants(*tweet) is Err {
            assert(variants@.map_values(|v: VideoVariant| variant_view(v)) =~= Seq::empty());
        }
    }
    TweetRef {
        author: tweet.user.screen_name.clone(),
        display_name: tweet.user.name.clone(),
        text: tweet.full_text.clone(),
        avatar_url: copy_opt(&tweet.user.profile_image_url_https),
        variants,
        likes: tweet.likes,
        created_at: format_date(tweet.created_at.as_str()),
    }
}

/// The summary of a quoted tweet: its author and text (the syndication
/// answer carries no media, likes or date for it).
pub open spec fn ref_of_quoted(q: SyndicationQuotedTweet, r: TweetRef) -> bool {
    &&& r.author@ == q.user.screen_name@
    &&& r.display_name@ == q.user.name@
    &&& r.text@ == q.full_text@
    &&& r.avatar_url == q.user.profile_image_url_https
    &&& r.variants@.len() == 0
    &&& r.likes is None
    &&& r.created_at@.len() == 0
}

/// The summary of the tweet a tweet quotes.
pub fn quoted_ref(q: &SyndicationQuotedTweet) -> (r: TweetRef)
    ensures
        ref_of_quoted(*q, r),
{
    TweetRef {
        author: q.user.screen_name.clone(),
        display_name: q.user.name.clone(),
        text: q.full_text.clone(),
        avatar_url: copy_opt(&q.user.profile_image_url_https),
        variants: Vec::new(),
        likes: None,
        created_at: String::new(),
    }
}

/// The id of the tweet a reply answers, when the tweet is a reply.
pub fn reply_parent_id(tweet: &SyndicationTweet) -> (r: Option<String>)
    ensures
        r == tweet.in_reply_to_status_id_str,
{
    copy_opt(&tweet.in_reply_to_status_id_str)
}

/// What the info endpoint answers about a tweet, given the summary of the
/// tweet it replies to (when it is a reply and that tweet could be fetched)
/// and that of the tweet it quotes (when that tweet could be fetched by its
/// id): `NoVideo` when the tweet offers no variant. A quoted tweet that could
/// not be fetched is summed up from what the tweet itself carries of it.
pub fn build_tweet_info(
    tweet: &SyndicationTweet,
    in_reply_to: Option<TweetRef>,
    quoted: Option<TweetRef>,
) -> (r: Result<
    TweetInfo,
    AppError,
>)
    ensures
        match r {
            Ok(info) => {
                &&& offered_variants(*tweet) == Ok::<_, ()>(
                    info.variants@.map_values(|v: VideoVariant| variant_view(v)),
                )
                &&& info.author@ == tweet.user.screen_name@
                &&& info.display_name@ == tweet.user.name@
                &&& info.created_at@ == display_date(tweet.created_at@)
                &&& info.text@ == tweet.full_text@
                &&& match tweet.quoted_tweet {
                    Some(q) => match quoted {
                        Some(fetched) => info.quoted_tweet == Some(fetched),
                        None => info.quoted_tweet matches Some(qr) && ref_of_quoted(q, qr),
                    },
                    None => info.quoted_tweet is None,
                }
                &&& info.in_reply_to == in_reply_to
                &&& info.avatar_url == tweet.user.profile_image_url_https
                &&& info.likes == tweet.likes
            },
            Err(e) => offered_variants(*tweet) is Err && e is NoVideo,
        },
{
    let variants = parse_variants(tweet)?;
    let quoted_tweet = match &tweet.quoted_tweet {
        Some(q) => match quoted {
            Some(fetched) => Some(fetched),
            None => Some(quoted_ref(q)),
        },
        None => None,
    };
    Ok(
        TweetInfo {
            author: tweet.user.screen_name.clone(),
            display_name: tweet.user.name.clone(),
            created_at: format_date(tweet.created_at.as_str()),
            text: tweet.full_text.clone(),
            quoted_tweet,
            in_reply_to,
            variants,
            avatar_url: copy_opt(&tweet.user.profile_image_url_https),
            likes: tweet.likes,
        },
    )
}


/// Whether a media type is one the search takes: a video, or an animated
/// GIF too when `gif_ok`.
pub open spec fn wanted_type(t: Seq<char>, gif_ok: bool) -> bool {
    if gif_ok {
        is_video_or_gif(t)
    } else {
        is_video(t)
    }
}

/// The media item searched for is the first one of a wanted type: every
/// item before it is of another type, and when none is found no item is of a
/// wanted type.
pub proof fn law_first_video_item(m: Seq<MediaItem>, gif_ok: bool)
    ensures
        match first_video_item(m, 0, gif_ok) {
            Some(i) => {
                &&& 0 <= i < m.len()
                &&& wanted_type(m[i].media_type@, gif_ok)
                &&& forall|k: int| 0 <= k < i ==> !wanted_type(#[trigger] m[k].media_type@, gif_ok)
            },
            None => forall|k: int| 0 <= k < m.len() ==> !wanted_type(#[trigger] m[k].media_type@, gif_ok),
        },
{
    lemma_first_video_from(m, 0, gif_ok);
}

proof fn lemma_first_video_from(m: Seq<MediaItem>, i: int, gif_ok: bool)
    requires
        0 <= i,
    ensures
        match first_video_item(m, i, gif_ok) {
            Some(j) => {
                &&& i <= j < m.len()
                &&& wanted_type(m[j].media_type@, gif_ok)
                &&& forall|k: int| i <= k < j ==> !wanted_type(#[trigger] m[k].media_type@, gif_ok)
            },
            None => forall|k: int| i <= k < m.len() ==> !wanted_type(#[trigger] m[k].media_type@, gif_ok),
        },
    decreases m.len() - i,
{
    if i < m.len() && !wanted_type(m[i].media_type@, gif_ok) {
        lemma_first_video_from(m, i + 1, gif_ok);
    }
}

/// The subtitle tracks of a tweet's first video item, when it lists any.
pub open spec fn video_subtitles(t: SyndicationTweet) -> Option<Seq<SubtitleTrack>> {
    match media_of(t) {
        None => None,
        Some(m) => match first_video_item(m, 0, false) {
            None => None,
            Some(i) => match m[i].video_info {
                None => None,
                Some(vi) => match vi.subtitles {
                    None => None,
                    Some(subs) => Some(subs@),
                },
            },
        },
    }
}

/// The subtitle track chosen for a tweet: of the tracks of its first video
/// item, the first whose language starts with `en`; when no language does,
/// the first track; none when there is no track.
pub proof fn law_subtitle_choice(t: SyndicationTweet)
    ensures
        match video_subtitles(t) {
            None => subtitle_url_of(t) is None,
            Some(subs) => {
                &&& subs.len() == 0 ==> subtitle_url_of(t) is None
                &&& (forall|k: int| 0 <= k < subs.len() ==> !starts_with(#[trigger] subs[k].language@, "en"@))
                    && subs.len() > 0 ==> subtitle_url_of(t) == Some(subs[0].url@)
                &&& (exists|k: int| 0 <= k < subs.len() && starts_with(#[trigger] subs[k].language@, "en"@))
                    ==> exists|j: int| {
                    &&& 0 <= j < subs.len()
                    &&& subtitle_url_of(t) == Some(subs[j].url@)
                    &&& starts_with(subs[j].language@, "en"@)
                    &&& forall|k: int| 0 <= k < j ==> !starts_with(#[trigger] subs[k].language@, "en"@)
                }
            },
        },
{
    match video_subtitles(t) {
        None => {},
        Some(subs) => {
            lemma_first_english_from(subs, 0);
            match first_english(subs, 0) {
                Some(j) => {
                    assert(subtitle_url_of(t) == Some(subs[j].url@));
                },
                None => {},
            }
        },
    }
}

proof fn lemma_first_english_from(subs: Seq<SubtitleTrack>, i: int)
    requires
        0 <= i,
    ensures
        match first_english(subs, i) {
            Some(j) => {
                &&& i <= j < subs.len()
                &&& starts_with(subs[j].language@, "en"@)
                &&& forall|k: int| i <= k < j ==> !starts_with(#[trigger] subs[k].language@, "en"@)
            },
            None => forall|k: int| i <= k < subs.len() ==> !starts_with(#[trigger] subs[k].language@, "en"@),
        },
    decreases subs.len() - i,
{
    if i < subs.len() && !starts_with(subs[i].language@, "en"@) {
        lemma_first_english_from(subs, i + 1);
    }
}

} // verus!

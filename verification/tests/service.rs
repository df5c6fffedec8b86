use twitter_dl::download::{
    attachment_disposition, concat_list, download_next, download_start, media_filename, DownloadAction,
    DownloadStage, Fetched,
};
use twitter_dl::rate_limit::RateLimiter;

#[test]
fn concat_lists_quote_paths() {
    let l = concat_list(&vec!["/tmp/a/0.mp4".to_string(), "/tmp/it's/1.mp4".to_string()]);
    assert_eq!(l, "file '/tmp/a/0.mp4'\nfile '/tmp/it'\\''s/1.mp4'");
    assert_eq!(concat_list(&vec![]), "");
}

#[test]
fn download_names() {
    assert_eq!(media_filename("jack", "20", "mp4"), "jack_20.mp4");
    assert_eq!(attachment_disposition("jack_20.srt"), "attachment; filename=\"jack_20.srt\"");
}

#[test]
fn rate_limiter_allows_up_to_the_limit_in_a_window() {
    let mut rl = RateLimiter::new();
    let s = 1_000_000_000u128;
    assert!(rl.check_at("ip", 2, 10, 0));
    assert!(rl.check_at("ip", 2, 10, s));
    assert!(!rl.check_at("ip", 2, 10, 2 * s));
    assert!(rl.check_at("other", 2, 10, 2 * s));
    // the first request leaves the window after ten seconds
    assert!(!rl.check_at("ip", 2, 10, 10 * s - 1));
    assert!(rl.check_at("ip", 2, 10, 10 * s));
    assert!(!rl.check_at("ip", 2, 10, 10 * s + 1));
}

#[test]
fn rate_limiter_with_zero_limit_refuses() {
    let mut rl = RateLimiter::new();
    assert!(!rl.check("k", 0, 60));
}

#[test]
fn rate_limiter_on_the_clock() {
    let mut rl = RateLimiter::new();
    assert!(rl.check("k", 3, 60));
    assert!(rl.check("k", 3, 60));
    assert!(rl.check("k", 3, 60));
    assert!(!rl.check("k", 3, 60));
    assert!(rl.check("j", 3, 60));
}

#[test]
fn download_without_card_streams_or_sends_the_quote() {
    assert_eq!(download_start(false, false), (DownloadStage::Done, DownloadAction::StreamMain));
    assert_eq!(download_start(false, true), (DownloadStage::QuotedAsIs, DownloadAction::FetchQuoted));
    assert_eq!(
        download_next(DownloadStage::QuotedAsIs, true, Fetched::Got),
        (DownloadStage::Done, DownloadAction::SendQuoted)
    );
    assert_eq!(
        download_next(DownloadStage::QuotedAsIs, true, Fetched::Missing),
        (DownloadStage::Done, DownloadAction::FailNoVideo)
    );
}

#[test]
fn download_with_card_renders_over_the_right_video() {
    assert_eq!(download_start(true, false), (DownloadStage::Main, DownloadAction::FetchMain));
    assert_eq!(download_start(true, true), (DownloadStage::Main, DownloadAction::FetchMain));
    assert_eq!(
        download_next(DownloadStage::Main, false, Fetched::Got),
        (DownloadStage::Done, DownloadAction::CardOverMain)
    );
    assert_eq!(
        download_next(DownloadStage::Main, false, Fetched::Missing),
        (DownloadStage::Done, DownloadAction::FailNoVideo)
    );
    assert_eq!(
        download_next(DownloadStage::Main, true, Fetched::Got),
        (DownloadStage::QuotedTweet, DownloadAction::FetchQuotedTweet)
    );
    assert_eq!(
        download_next(DownloadStage::QuotedTweet, true, Fetched::Got),
        (DownloadStage::QuotedUnderCard, DownloadAction::FetchQuoted)
    );
    assert_eq!(
        download_next(DownloadStage::QuotedTweet, true, Fetched::Missing),
        (DownloadStage::Done, DownloadAction::FailNoQuotedTweet)
    );
    assert_eq!(
        download_next(DownloadStage::QuotedUnderCard, true, Fetched::Got),
        (DownloadStage::Done, DownloadAction::CardOverQuoted)
    );
    assert_eq!(
        download_next(DownloadStage::QuotedUnderCard, true, Fetched::Missing),
        (DownloadStage::Done, DownloadAction::CardOverMain)
    );
}

#[test]
fn download_falls_back_to_the_quote_and_passes_errors() {
    assert_eq!(
        download_next(DownloadStage::Main, true, Fetched::Missing),
        (DownloadStage::QuotedAsMain, DownloadAction::FetchQuoted)
    );
    assert_eq!(
        download_next(DownloadStage::QuotedAsMain, true, Fetched::Got),
        (DownloadStage::QuotedTweet, DownloadAction::FetchQuotedTweet)
    );
    assert_eq!(
        download_next(DownloadStage::QuotedAsMain, true, Fetched::Missing),
        (DownloadStage::Done, DownloadAction::FailNoVideo)
    );
    assert_eq!(
        download_next(DownloadStage::Main, true, Fetched::Failed),
        (DownloadStage::Done, DownloadAction::PassError)
    );
    // four fetches at most: fallback, the quoted tweet, then its video under the card
    let mut s = download_start(true, true);
    let mut fetches = 0;
    for f in [Fetched::Missing, Fetched::Got, Fetched::Got, Fetched::Got] {
        if s.0 == DownloadStage::Done {
            break;
        }
        s = download_next(s.0, true, f);
        fetches += 1;
    }
    assert_eq!(s, (DownloadStage::Done, DownloadAction::CardOverQuoted));
    assert_eq!(fetches, 4);
}

#[test]
fn rate_limiter_never_allows_more_than_the_limit_in_any_window() {
    let mut rl = RateLimiter::new();
    let s = 1_000_000_000u128;
    let mut allowed: Vec<u128> = Vec::new();
    // a request every 300 ms for 30 s, limit 4 per 2 s
    for i in 0..100u128 {
        let now = i * 3 * s / 10;
        if rl.check_at("ip", 4, 2, now) {
            allowed.push(now);
        }
    }
    for &start in &allowed {
        let n = allowed.iter().filter(|&&t| t >= start && t < start + 2 * s).count();
        assert!(n <= 4);
    }
    assert!(allowed.len() > 4);
}

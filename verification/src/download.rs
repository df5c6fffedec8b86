//! The steps of answering a download request, and the names and lists
//! handed to ffmpeg and to the client for a download.

use vstd::prelude::*;
use crate::text::{
    append_all, chars_of, join, join_with, replace, replace_all, string_of, views,
};

verus! {

broadcast use vstd::string::group_string_axioms;

/// One line of an ffmpeg concat list: the path quoted, its quotes escaped.
pub open spec fn concat_entry(path: Seq<char>) -> Seq<char> {
    "file '"@ + replace(path, "'"@, "'\\''"@) + "'"@
}

/// The ffmpeg concat list naming the given files, one per line.
pub open spec fn concat_list_text(paths: Seq<Seq<char>>) -> Seq<char> {
    join(paths.map_values(|p: Seq<char>| concat_entry(p)), "\n"@)
}

/// The ffmpeg concat list naming the given files, one per line, each quoted
/// as `file '...'` with its single quotes escaped.
pub fn concat_list(paths: &Vec<String>) -> (list: String)
    ensures
        list@ == concat_list_text(paths@.map_values(|p: String| p@)),
{
    let ghost ps = paths@.map_values(|p: String| p@);
    let quote = chars_of("'");
    proof {
        reveal_strlit("'");
    }
    let escaped = chars_of("'\\''");
    let mut entries: Vec<Vec<char>> = Vec::new();
    let mut k: usize = 0;
    while k < paths.len()
        invariant
            k <= paths.len(),
            ps == paths@.map_values(|p: String| p@),
            quote@ == "'"@,
            quote@.len() > 0,
            escaped@ == "'\\''"@,
            views(entries@) == ps.map_values(|p: Seq<char>| concat_entry(p)).take(k as int),
        decreases paths.len() - k,
    {
        let mut e = chars_of("file '");
        append_all(&mut e, &replace_all(&chars_of(paths[k].as_str()), &quote, &escaped));
        append_all(&mut e, &quote);
        assert(e@ =~= concat_entry(ps[k as int]));
        assert(views(entries@.push(e)) =~= views(entries@).push(e@));
        entries.push(e);
        k = k + 1;
        assert(views(entries@) =~= ps.map_values(|p: Seq<char>| concat_entry(p)).take(k as int));
    }
    assert(ps.map_values(|p: Seq<char>| concat_entry(p)).take(paths.len() as int) =~= ps.map_values(
        |p: Seq<char>| concat_entry(p),
    ));
    string_of(&join_with(&entries, &chars_of("\n")))
}

/// The name of a downloaded file: author, `_`, tweet id, `.`, extension.
pub open spec fn media_filename_of(author: Seq<char>, id: Seq<char>, ext: Seq<char>) -> Seq<char> {
    author + "_"@ + id + "."@ + ext
}

/// The name of a downloaded file, such as `jack_20.mp4`.
pub fn media_filename(author: &str, id: &str, ext: &str) -> (name: String)
    ensures
        name@ == media_filename_of(author@, id@, ext@),
{
    let mut v = chars_of(author);
    append_all(&mut v, &chars_of("_"));
    append_all(&mut v, &chars_of(id));
    append_all(&mut v, &chars_of("."));
    append_all(&mut v, &chars_of(ext));
    string_of(&v)
}

/// The `Content-Disposition` value that makes the client save a file.
pub open spec fn attachment_of(filename: Seq<char>) -> Seq<char> {
    "attachment; filename=\""@ + filename + "\""@
}

/// The `Content-Disposition` value that makes the client save `filename`.
pub fn attachment_disposition(filename: &str) -> (h: String)
    ensures
        h@ == attachment_of(filename@),
{
    let mut v = chars_of("attachment; filename=\"");
    append_all(&mut v, &chars_of(filename));
    append_all(&mut v, &chars_of("\""));
    string_of(&v)
}


/// Where the answer to a download request stands.
#[derive(Debug, Clone, Copy, PartialEq, Eq, Structural)]
pub enum DownloadStage {
    /// Waiting for the quoted tweet's video, to send it as it is.
    QuotedAsIs,
    /// Waiting for the main video (the replied-to tweet's when a reply has none).
    Main,
    /// Waiting for the quoted tweet's video, to stand in for a missing main video.
    QuotedAsMain,
    /// Waiting for the quoted tweet itself, whose box the card shows.
    QuotedTweet,
    /// Waiting for the quoted tweet's video, to show under the card.
    QuotedUnderCard,
    /// Answered.
    Done,
}

/// How fetching a video ended.
#[derive(Debug, Clone, Copy, PartialEq, Eq, Structural)]
pub enum Fetched {
    /// The video is there.
    Got,
    /// There is no such video.
    Missing,
    /// The fetch failed with an error of its own.
    Failed,
}

/// What the download handler does next.
#[derive(Debug, Clone, Copy, PartialEq, Eq, Structural)]
pub enum DownloadAction {
    /// Fetch the quoted tweet's video.
    FetchQuoted,
    /// Fetch the quoted tweet itself.
    FetchQuotedTweet,
    /// Download the main video.
    FetchMain,
    /// Stream the main video from the CDN as the answer.
    StreamMain,
    /// Answer with the quoted tweet's video as it is.
    SendQuoted,
    /// Answer with the card rendered over the main video.
    CardOverMain,
    /// Answer with the card rendered over the quoted tweet's video.
    CardOverQuoted,
    /// Answer that there is no video.
    FailNoVideo,
    /// Answer that the quoted tweet could not be found.
    FailNoQuotedTweet,
    /// Answer with the error of the failed fetch.
    PassError,
}

/// The first step of answering a download request: without a card, a quote
/// request sends the quoted video as it is and any other request streams the
/// main video; with a card, the main video is downloaded first.
pub open spec fn download_start_spec(render_card: bool, include_quote: bool) -> (DownloadStage, DownloadAction) {
    if !render_card {
        if include_quote {
            (DownloadStage::QuotedAsIs, DownloadAction::FetchQuoted)
        } else {
            (DownloadStage::Done, DownloadAction::StreamMain)
        }
    } else {
        (DownloadStage::Main, DownloadAction::FetchMain)
    }
}

/// The step after a fetch: a failed fetch passes its error on; a missing main
/// video is replaced by the quoted one in quote mode; with a quote the card
/// needs the quoted tweet (an internal error when it cannot be found), and
/// the quoted video is shown under the card when it is there, else the main
/// one.
pub open spec fn download_next_spec(stage: DownloadStage, include_quote: bool, fetched: Fetched) -> (
    DownloadStage,
    DownloadAction,
) {
    match fetched {
        Fetched::Failed => (DownloadStage::Done, DownloadAction::PassError),
        Fetched::Got => match stage {
            DownloadStage::QuotedAsIs => (DownloadStage::Done, DownloadAction::SendQuoted),
            DownloadStage::QuotedUnderCard => (DownloadStage::Done, DownloadAction::CardOverQuoted),
            DownloadStage::QuotedTweet => (DownloadStage::QuotedUnderCard, DownloadAction::FetchQuoted),
            _ => if include_quote {
                (DownloadStage::QuotedTweet, DownloadAction::FetchQuotedTweet)
            } else {
                (DownloadStage::Done, DownloadAction::CardOverMain)
            },
        },
        Fetched::Missing => match stage {
            DownloadStage::Main => if include_quote {
                (DownloadStage::QuotedAsMain, DownloadAction::FetchQuoted)
            } else {
                (DownloadStage::Done, DownloadAction::FailNoVideo)
            },
            DownloadStage::QuotedUnderCard => (DownloadStage::Done, DownloadAction::CardOverMain),
            DownloadStage::QuotedTweet => (DownloadStage::Done, DownloadAction::FailNoQuotedTweet),
            _ => (DownloadStage::Done, DownloadAction::FailNoVideo),
        },
    }
}

/// The first step of answering a download request.
pub fn download_start(render_card: bool, include_quote: bool) -> (r: (DownloadStage, DownloadAction))
    ensures
        r == download_start_spec(render_card, include_quote),
{
    if !render_card {
        if include_quote {
            (DownloadStage::QuotedAsIs, DownloadAction::FetchQuoted)
        } else {
            (DownloadStage::Done, DownloadAction::StreamMain)
        }
    } else {
        (DownloadStage::Main, DownloadAction::FetchMain)
    }
}

/// The step after the fetch asked for at `stage` ended as `fetched`.
pub fn download_next(stage: DownloadStage, include_quote: bool, fetched: Fetched) -> (r: (
    DownloadStage,
    DownloadAction,
))
    requires
        stage != DownloadStage::Done,
    ensures
        r == download_next_spec(stage, include_quote, fetched),
{
    match fetched {
        Fetched::Failed => (DownloadStage::Done, DownloadAction::PassError),
        Fetched::Got => match stage {
            DownloadStage::QuotedAsIs => (DownloadStage::Done, DownloadAction::SendQuoted),
            DownloadStage::QuotedUnderCard => (DownloadStage::Done, DownloadAction::CardOverQuoted),
            DownloadStage::QuotedTweet => (DownloadStage::QuotedUnderCard, DownloadAction::FetchQuoted),
            _ => if include_quote {
                (DownloadStage::QuotedTweet, DownloadAction::FetchQuotedTweet)
            } else {
                (DownloadStage::Done, DownloadAction::CardOverMain)
            },
        },
        Fetched::Missing => match stage {
            DownloadStage::Main => if include_quote {
                (DownloadStage::QuotedAsMain, DownloadAction::FetchQuoted)
            } else {
                (DownloadStage::Done, DownloadAction::FailNoVideo)
            },
            DownloadStage::QuotedUnderCard => (DownloadStage::Done, DownloadAction::CardOverMain),
            DownloadStage::QuotedTweet => (DownloadStage::Done, DownloadAction::FailNoQuotedTweet),
            _ => (DownloadStage::Done, DownloadAction::FailNoVideo),
        },
    }
}

/// The stage and action after the fetches ended as `outcomes`, one per fetch
/// asked for, until the answer is given.
pub open spec fn download_run(render_card: bool, include_quote: bool, outcomes: Seq<Fetched>) -> (
    DownloadStage,
    DownloadAction,
)
    decreases outcomes.len(),
{
    if outcomes.len() == 0 {
        download_start_spec(render_card, include_quote)
    } else {
        let prev = download_run(render_card, include_quote, outcomes.drop_last());
        if prev.0 == DownloadStage::Done {
            prev
        } else {
            download_next_spec(prev.0, include_quote, outcomes.last())
        }
    }
}

/// Whether an action answers the request.
pub open spec fn answers(a: DownloadAction) -> bool {
    a != DownloadAction::FetchQuoted && a != DownloadAction::FetchMain
        && a != DownloadAction::FetchQuotedTweet
}

/// A download request is answered after at most four fetches, whatever they
/// give. A card is rendered only when one was asked for; the main video is
/// streamed, or the quoted one sent as it is, only when no card was asked
/// for; the quoted video is sent or shown under the card, and a missing
/// quoted tweet refused, only in quote mode.
pub proof fn law_download_answer(render_card: bool, include_quote: bool, outcomes: Seq<Fetched>)
    requires
        outcomes.len() >= 4,
    ensures
        ({
            let r = download_run(render_card, include_quote, outcomes);
            &&& r.0 == DownloadStage::Done
            &&& answers(r.1)
            &&& (r.1 == DownloadAction::CardOverMain || r.1 == DownloadAction::CardOverQuoted)
                ==> render_card
            &&& (r.1 == DownloadAction::StreamMain || r.1 == DownloadAction::SendQuoted)
                ==> !render_card
            &&& r.1 == DownloadAction::CardOverQuoted ==> include_quote
            &&& r.1 == DownloadAction::SendQuoted ==> include_quote
            &&& r.1 == DownloadAction::FailNoQuotedTweet ==> render_card && include_quote
        }),
    decreases outcomes.len(),
{
    let o = outcomes;
    if o.len() > 4 {
        law_download_answer(render_card, include_quote, o.drop_last());
    } else {
        let o3 = o.drop_last();
        let o2 = o3.drop_last();
        let o1 = o2.drop_last();
        let o0 = o1.drop_last();
        assert(o0.len() == 0);
        reveal_with_fuel(download_run, 5);
    }
}

} // verus!

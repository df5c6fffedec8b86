//! Text and argument preparation for the tweet-card overlay: encoder choice
//! and arguments, tweet body cleanup and wrapping, font lookup and the
//! ffmpeg filter graph.

use vstd::prelude::*;
use crate::text::{
    append_all, begins_with, chars_of, contains, copy_range, find_from, int_text, join, join_with,
    lemma_find_from, lines, lines_of, occurs_at, push_int, replace,
    replace_text, split, split_on, starts_with, string_of, trim, trim_end, trimmed, views, words,
    words_of, words_from, all_digits, digits_value, is_digit, lemma_digits_value_prefix,
};
use crate::error::AppError;

verus! {

broadcast use vstd::string::group_string_axioms;

/// An H.264 encoder that ffmpeg can use.
#[derive(Debug, Clone, Copy, PartialEq, Eq, Structural)]
pub enum VideoEncoder {
    Nvenc,
    Amf,
    Qsv,
    Libx264,
}

/// A step of choosing the encoder: probe whether an encoder works, or use one.
#[derive(Debug, Clone, Copy, PartialEq, Eq, Structural)]
pub enum ProbeStep {
    Probe(VideoEncoder),
    Use(VideoEncoder),
}

/// The step after probing `tried`: use it when it works, else probe the
/// next hardware encoder (NVENC, then AMF, then QSV), and after QSV fall back
/// to libx264, which is not probed.
pub open spec fn step_after(tried: VideoEncoder, works: bool) -> ProbeStep {
    if works {
        ProbeStep::Use(tried)
    } else {
        match tried {
            VideoEncoder::Nvenc => ProbeStep::Probe(VideoEncoder::Amf),
            VideoEncoder::Amf => ProbeStep::Probe(VideoEncoder::Qsv),
            VideoEncoder::Qsv => ProbeStep::Use(VideoEncoder::Libx264),
            VideoEncoder::Libx264 => ProbeStep::Use(VideoEncoder::Libx264),
        }
    }
}

/// The first step of choosing the encoder: probe NVENC.
pub fn first_probe() -> (s: ProbeStep)
    ensures
        s == ProbeStep::Probe(VideoEncoder::Nvenc),
{
    ProbeStep::Probe(VideoEncoder::Nvenc)
}

/// The step after probing `tried`.
pub fn after_probe(tried: VideoEncoder, works: bool) -> (s: ProbeStep)
    ensures
        s == step_after(tried, works),
{
    if works {
        ProbeStep::Use(tried)
    } else {
        match tried {
            VideoEncoder::Nvenc => ProbeStep::Probe(VideoEncoder::Amf),
            VideoEncoder::Amf => ProbeStep::Probe(VideoEncoder::Qsv),
            VideoEncoder::Qsv => ProbeStep::Use(VideoEncoder::Libx264),
            VideoEncoder::Libx264 => ProbeStep::Use(VideoEncoder::Libx264),
        }
    }
}

/// The encoder chosen when NVENC, AMF and QSV work as given: the first that
/// works, in that order, else libx264.
pub open spec fn chosen_encoder(nvenc: bool, amf: bool, qsv: bool) -> VideoEncoder {
    if nvenc {
        VideoEncoder::Nvenc
    } else if amf {
        VideoEncoder::Amf
    } else if qsv {
        VideoEncoder::Qsv
    } else {
        VideoEncoder::Libx264
    }
}

/// Choosing the encoder probes at most three encoders and ends with the
/// first hardware encoder that works (NVENC, AMF, QSV), else libx264.
pub proof fn law_encoder_choice(nvenc: bool, amf: bool, qsv: bool)
    ensures
        ({
            let s1 = step_after(VideoEncoder::Nvenc, nvenc);
            let s2 = match s1 {
                ProbeStep::Probe(e) => step_after(e, amf),
                ProbeStep::Use(e) => s1,
            };
            let s3 = match s2 {
                ProbeStep::Probe(e) => step_after(e, qsv),
                ProbeStep::Use(e) => s2,
            };
            s3 == ProbeStep::Use(chosen_encoder(nvenc, amf, qsv))
        }),
{
}

/// The ffmpeg codec name of an encoder.
pub open spec fn codec_of(e: VideoEncoder) -> Seq<char> {
    match e {
        VideoEncoder::Nvenc => "h264_nvenc"@,
        VideoEncoder::Amf => "h264_amf"@,
        VideoEncoder::Qsv => "h264_qsv"@,
        VideoEncoder::Libx264 => "libx264"@,
    }
}

/// The ffmpeg codec name of an encoder, as given to `-c:v`.
pub fn codec_name(e: VideoEncoder) -> (n: String)
    ensures
        n@ == codec_of(e),
{
    match e {
        VideoEncoder::Nvenc => "h264_nvenc".to_string(),
        VideoEncoder::Amf => "h264_amf".to_string(),
        VideoEncoder::Qsv => "h264_qsv".to_string(),
        VideoEncoder::Libx264 => "libx264".to_string(),
    }
}

/// The ffmpeg output arguments of an encoder.
pub open spec fn encoder_arg_list(e: VideoEncoder) -> Seq<Seq<char>> {
    match e {
        VideoEncoder::Nvenc => seq![
            "-c:v"@, "h264_nvenc"@, "-preset"@, "p4"@, "-cq"@, "18"@, "-rc"@, "vbr"@,
            "-pix_fmt"@, "yuv420p"@,
        ],
        VideoEncoder::Amf => seq![
            "-c:v"@, "h264_amf"@, "-quality"@, "quality"@, "-qp_i"@, "18"@, "-qp_p"@, "18"@,
            "-pix_fmt"@, "yuv420p"@,
        ],
        VideoEncoder::Qsv => seq![
            "-c:v"@, "h264_qsv"@, "-preset"@, "fast"@, "-global_quality"@, "18"@, "-pix_fmt"@,
            "yuv420p"@,
        ],
        VideoEncoder::Libx264 => seq![
            "-c:v"@, "libx264"@, "-preset"@, "fast"@, "-crf"@, "20"@, "-threads"@, "0"@,
        ],
    }
}

/// Builds a vector of strings from literals.
fn strings_of(parts: &[&str]) -> (r: Vec<String>)
    ensures
        r@.len() == parts@.len(),
        forall|i: int| 0 <= i < parts@.len() ==> #[trigger] r@[i]@ == parts@[i]@,
{
    let mut r: Vec<String> = Vec::new();
    let mut k: usize = 0;
    while k < parts.len()
        invariant
            k <= parts.len(),
            r@.len() == k,
            forall|i: int| 0 <= i < k ==> #[trigger] r@[i]@ == parts@[i]@,
        decreases parts.len() - k,
    {
        r.push(parts[k].to_string());
        k = k + 1;
    }
    r
}

/// The ffmpeg output arguments (codec and quality settings) of an encoder.
pub fn encoder_args(e: VideoEncoder) -> (args: Vec<String>)
    ensures
        args@.map_values(|a: String| a@) == encoder_arg_list(e),
{
    let parts: Vec<&str> = match e {
        VideoEncoder::Nvenc => vec![
            "-c:v", "h264_nvenc", "-preset", "p4", "-cq", "18", "-rc", "vbr", "-pix_fmt", "yuv420p",
        ],
        VideoEncoder::Amf => vec![
            "-c:v", "h264_amf", "-quality", "quality", "-qp_i", "18", "-qp_p", "18", "-pix_fmt",
            "yuv420p",
        ],
        VideoEncoder::Qsv => vec![
            "-c:v", "h264_qsv", "-preset", "fast", "-global_quality", "18", "-pix_fmt", "yuv420p",
        ],
        VideoEncoder::Libx264 => vec![
            "-c:v", "libx264", "-preset", "fast", "-crf", "20", "-threads", "0",
        ],
    };
    let args = strings_of(parts.as_slice());
    assert(args@.map_values(|a: String| a@) =~= encoder_arg_list(e));
    args
}

/// Whether a word is a t.co short link.
pub open spec fn is_tco_link(w: Seq<char>) -> bool {
    starts_with(w, "https://t.co/"@) || starts_with(w, "http://t.co/"@)
}

/// The words that are not t.co short links, in order.
pub open spec fn without_tco(ws: Seq<Seq<char>>) -> Seq<Seq<char>>
    decreases ws.len(),
{
    if ws.len() == 0 {
        seq![]
    } else if is_tco_link(ws.last()) {
        without_tco(ws.drop_last())
    } else {
        without_tco(ws.drop_last()).push(ws.last())
    }
}

/// A tweet body without its t.co short links, its words joined by single spaces.
pub fn strip_tco(text: &str) -> (r: String)
    ensures
        r@ == join(without_tco(words(text@)), " "@),
{
    let ws = words_of(&chars_of(text));
    let ghost sw = words(text@);
    let https = chars_of("https://t.co/");
    let http = chars_of("http://t.co/");
    let mut kept: Vec<Vec<char>> = Vec::new();
    let mut k: usize = 0;
    assert(views(ws@).len() == ws@.len());
    while k < ws.len()
        invariant
            k <= ws.len(),
            views(ws@) == sw,
            https@ == "https://t.co/"@,
            http@ == "http://t.co/"@,
            views(kept@) == without_tco(sw.take(k as int)),
        decreases ws.len() - k,
    {
        proof {
            assert(sw.take(k + 1).drop_last() =~= sw.take(k as int));
            assert(sw.take(k + 1).last() == ws[k as int]@);
        }
        if !begins_with(&ws[k], &https) && !begins_with(&ws[k], &http) {
            let w = crate::text::copy_range(&ws[k], 0, ws[k].len());
            assert(w@ =~= ws[k as int]@);
            assert(views(kept@.push(w)) =~= views(kept@).push(w@));
            kept.push(w);
        }
        k = k + 1;
    }
    assert(sw.take(ws.len() as int) =~= sw);
    let joined = join_with(&kept, &chars_of(" "));
    string_of(&joined)
}


/// Unicode general category Cc (what `char::is_control` tests).
pub open spec fn is_control(c: char) -> bool {
    let u = c as u32;
    u <= 0x1F || (0x7F <= u <= 0x9F)
}

/// `s` without its control characters other than `\n`.
pub open spec fn drop_controls(s: Seq<char>) -> Seq<char>
    decreases s.len(),
{
    if s.len() == 0 {
        s
    } else if !is_control(s.last()) || s.last() == '\n' {
        drop_controls(s.drop_last()).push(s.last())
    } else {
        drop_controls(s.drop_last())
    }
}

/// The number of bytes of `c` in UTF-8.
pub open spec fn utf8_len(c: char) -> nat {
    let u = c as u32;
    if u < 0x80 {
        1
    } else if u < 0x800 {
        2
    } else if u < 0x10000 {
        3
    } else {
        4
    }
}

/// The number of bytes of `s` in UTF-8 (`str::len`).
pub open spec fn byte_len(s: Seq<char>) -> nat
    decreases s.len(),
{
    if s.len() == 0 {
        0
    } else {
        byte_len(s.drop_last()) + utf8_len(s.last())
    }
}

/// The longest start of `s` that fits in `n` bytes: a cut at byte `n`
/// moves back to the character boundary at or before it.
pub open spec fn char_prefix(s: Seq<char>, n: int) -> Seq<char>
    decreases s.len(),
{
    if s.len() == 0 || utf8_len(s[0]) > n {
        seq![]
    } else {
        seq![s[0]] + char_prefix(s.drop_first(), n - utf8_len(s[0]))
    }
}

/// Where the last line is cut before the ellipsis: `max_chars - 3` bytes,
/// or 0 when `max_chars` is below 3.
pub open spec fn cut_point(max_chars: nat) -> nat {
    if max_chars >= 3 {
        (max_chars - 3) as nat
    } else {
        0
    }
}

/// Wraps the words `ws` of one paragraph, given the text so far, the number
/// of lines so far and the line being filled: a word that would make the
/// line exceed `max_chars` bytes (counting the space) starts a new line; when
/// the line limit would be passed, the current line is cut to at most
/// `max_chars - 3` bytes, on a character boundary, and `...` ends the text.
/// The pass goes on (0), stops at the line limit (1) or ends the text with
/// the cut (2).
pub open spec fn wrap_words(
    ws: Seq<Seq<char>>,
    out: Seq<char>,
    lines: nat,
    line: Seq<char>,
    max_chars: nat,
    max_lines: nat,
) -> (u8, Seq<char>, nat)
    decreases ws.len(),
{
    if ws.len() == 0 {
        if line.len() == 0 {
            (0, out, lines)
        } else if lines >= max_lines {
            (1, out, lines)
        } else {
            (0, out + line + seq!['\n'], lines + 1)
        }
    } else {
        let w = ws[0];
        if byte_len(line) + byte_len(w) + 1 > max_chars && line.len() > 0 {
            if lines >= max_lines - 1 {
                let idx = if byte_len(line) < cut_point(max_chars) {
                    byte_len(line)
                } else {
                    cut_point(max_chars)
                };
                (2, out + char_prefix(line, idx as int) + "..."@, lines)
            } else {
                wrap_words(ws.drop_first(), out + line + seq!['\n'], lines + 1, w, max_chars, max_lines)
            }
        } else {
            wrap_words(
                ws.drop_first(),
                out,
                lines,
                if line.len() == 0 {
                    w
                } else {
                    line + seq![' '] + w
                },
                max_chars,
                max_lines,
            )
        }
    }
}

/// Wraps the paragraphs `ps` (blank ones skipped), stopping once
/// `max_lines` lines are written.
pub open spec fn wrap_paragraphs(
    ps: Seq<Seq<char>>,
    out: Seq<char>,
    lines: nat,
    max_chars: nat,
    max_lines: nat,
) -> (u8, Seq<char>, nat)
    decreases ps.len(),
{
    if ps.len() == 0 {
        (0, out, lines)
    } else if lines >= max_lines {
        (1, out, lines)
    } else if trim(ps[0]).len() == 0 {
        wrap_paragraphs(ps.drop_first(), out, lines, max_chars, max_lines)
    } else {
        let r = wrap_words(words(trim(ps[0])), out, lines, seq![], max_chars, max_lines);
        if r.0 == 0 {
            wrap_paragraphs(ps.drop_first(), r.1, r.2, max_chars, max_lines)
        } else {
            r
        }
    }
}

/// The tweet body wrapped for the card.
pub open spec fn wrapped(text: Seq<char>, max_chars: nat, max_lines: nat) -> Seq<char> {
    let cleaned = trim(drop_controls(text));
    let r = wrap_paragraphs(split(cleaned, seq!['\n']), seq![], 0, max_chars, max_lines);
    if r.0 == 2 {
        r.1
    } else {
        trim_end(r.1)
    }
}

proof fn lemma_byte_len_append(a: Seq<char>, b: Seq<char>)
    ensures
        byte_len(a + b) == byte_len(a) + byte_len(b),
    decreases b.len(),
{
    if b.len() > 0 {
        lemma_byte_len_append(a, b.drop_last());
        assert((a + b).drop_last() =~= a + b.drop_last());
    } else {
        assert(a + b =~= a);
    }
}

proof fn lemma_byte_len_bound(s: Seq<char>)
    ensures
        byte_len(s) <= 4 * s.len(),
    decreases s.len(),
{
    if s.len() > 0 {
        lemma_byte_len_bound(s.drop_last());
    }
}

/// The number of bytes of `c` in UTF-8.
fn utf8_width(c: char) -> (n: u128)
    ensures
        n == utf8_len(c),
{
    let u = c as u32;
    if u < 0x80 {
        1
    } else if u < 0x800 {
        2
    } else if u < 0x10000 {
        3
    } else {
        4
    }
}

/// The number of bytes of `s` in UTF-8.
fn bytes_of(s: &Vec<char>) -> (n: u128)
    ensures
        n == byte_len(s@),
{
    let mut n: u128 = 0;
    let mut k: usize = 0;
    while k < s.len()
        invariant
            k <= s.len(),
            n == byte_len(s@.take(k as int)),
            n <= 4 * k,
        decreases s.len() - k,
    {
        assert(s@.take(k + 1).drop_last() =~= s@.take(k as int));
        n = n + utf8_width(s[k]);
        k = k + 1;
    }
    assert(s@.take(s.len() as int) =~= s@);
    n
}

/// The longest start of `s` that fits in `n` bytes.
fn prefix_of_bytes(s: &Vec<char>, n: u128) -> (r: Vec<char>)
    ensures
        r@ == char_prefix(s@, n as int),
{
    let mut k: usize = 0;
    let mut left: u128 = n;
    assert(s@.skip(0) =~= s@);
    assert(s@.take(0) + char_prefix(s@, n as int) =~= char_prefix(s@, n as int));
    loop
        invariant
            k <= s.len(),
            left <= n,
            char_prefix(s@, n as int) == s@.take(k as int) + char_prefix(s@.skip(k as int), left as int),
        decreases s.len() - k,
    {
        let ghost rest = s@.skip(k as int);
        if k == s.len() {
            assert(rest.len() == 0);
            assert(s@.take(k as int) + Seq::<char>::empty() =~= s@.take(k as int));
            return copy_range(s, 0, k);
        }
        let w = utf8_width(s[k]);
        assert(rest[0] == s@[k as int]);
        if w > left {
            assert(s@.take(k as int) + Seq::<char>::empty() =~= s@.take(k as int));
            return copy_range(s, 0, k);
        }
        proof {
            assert(rest.drop_first() =~= s@.skip(k + 1));
            assert(s@.take(k + 1) =~= s@.take(k as int) + seq![s@[k as int]]);
            let q = char_prefix(s@.skip(k + 1), left - w);
            assert(s@.take(k as int) + (seq![s@[k as int]] + q) =~= s@.take(k + 1) + q);
        }
        left = left - w;
        k = k + 1;
    }
}

/// `s` without its control characters other than `\n`.
fn without_controls(s: &Vec<char>) -> (r: Vec<char>)
    ensures
        r@ == drop_controls(s@),
{
    let mut r: Vec<char> = Vec::new();
    let mut k: usize = 0;
    while k < s.len()
        invariant
            k <= s.len(),
            r@ == drop_controls(s@.take(k as int)),
        decreases s.len() - k,
    {
        let c = s[k];
        let u = c as u32;
        assert(s@.take(k + 1).drop_last() =~= s@.take(k as int));
        assert(s@.take(k + 1).last() == c);
        if !(u <= 0x1F || (0x7F <= u && u <= 0x9F)) || c == '\n' {
            r.push(c);
        }
        k = k + 1;
    }
    assert(s@.take(s.len() as int) =~= s@);
    r
}

/// Ends the text with the current line cut to `max_chars - 3` bytes and `...`.
fn cut_off(out: &mut Vec<char>, line: &Vec<char>, line_bytes: u128, max_chars: usize) -> (st: u8)
    requires
        line_bytes == byte_len(line@),
    ensures
        ({
            let idx = if byte_len(line@) < cut_point(max_chars as nat) {
                byte_len(line@)
            } else {
                cut_point(max_chars as nat)
            };
            st == 2 && final(out)@ == old(out)@ + char_prefix(line@, idx as int) + "..."@
        }),
{
    let cut: usize = if max_chars >= 3 {
        max_chars - 3
    } else {
        0
    };
    let idx: u128 = if line_bytes < cut as u128 {
        line_bytes
    } else {
        cut as u128
    };
    let p = prefix_of_bytes(line, idx);
    append_all(out, &p);
    append_all(out, &chars_of("..."));
    assert(out@ =~= old(out)@ + p@ + "..."@);
    2
}

/// Adds word `w` to the line being filled, after a space when the line is
/// not empty.
fn extend_line(line: &mut Vec<char>, line_bytes: u128, w: &Vec<char>, wb: u128) -> (n: u128)
    requires
        line_bytes == byte_len(old(line)@),
        wb == byte_len(w@),
        line_bytes <= 4 * old(line).len(),
        wb <= 4 * w.len(),
    ensures
        final(line)@ == (if old(line)@.len() == 0 {
            w@
        } else {
            old(line)@ + seq![' '] + w@
        }),
        n == byte_len(final(line)@),
        n <= 4 * final(line).len(),
{
    let ghost before = line@;
    let mut n = line_bytes;
    assert(line.len() <= usize::MAX && w.len() <= usize::MAX);
    if line.len() > 0 {
        line.push(' ');
        proof {
            lemma_byte_len_append(before, seq![' ']);
            assert(seq![' '].drop_last() =~= Seq::<char>::empty());
            assert(byte_len(Seq::<char>::empty()) == 0);
            assert(seq![' '].last() == ' ');
            assert(utf8_len(' ') == 1);
            assert(byte_len(seq![' ']) == 1);
            assert(line@ =~= before + seq![' ']);
        }
        n = n + 1;
    }
    let ghost mid = line@;
    append_all(line, w);
    proof {
        lemma_byte_len_append(mid, w@);
        if before.len() == 0 {
            assert(line@ =~= w@);
        } else {
            assert(line@ =~= before + seq![' '] + w@);
        }
    }
    n + wb
}

/// Wraps the words of one paragraph into `out`, counting the lines in
/// `lines`; the result tells how the pass ended.
fn wrap_paragraph(
    ws: &Vec<Vec<char>>,
    out: &mut Vec<char>,
    lines: &mut usize,
    max_chars: usize,
    max_lines: usize,
) -> (st: u8)
    requires
        *old(lines) < max_lines,
    ensures
        (st, final(out)@, *final(lines) as nat) == wrap_words(
            views(ws@),
            old(out)@,
            *old(lines) as nat,
            seq![],
            max_chars as nat,
            max_lines as nat,
        ),
        *final(lines) <= max_lines,
{
    let ghost target = wrap_words(
        views(ws@),
        old(out)@,
        *old(lines) as nat,
        seq![],
        max_chars as nat,
        max_lines as nat,
    );
    let mut line: Vec<char> = Vec::new();
    let mut line_bytes: u128 = 0;
    let mut k: usize = 0;
    let mut st: u8 = 0;
    assert(views(ws@).skip(0) =~= views(ws@));
    assert(views(ws@).len() == ws@.len());
    while k < ws.len() && st == 0
        invariant
            k <= ws.len(),
            views(ws@).len() == ws@.len(),
            *lines < max_lines,
            line_bytes == byte_len(line@),
            line_bytes <= 4 * line.len(),
            st == 0 ==> target == wrap_words(
                views(ws@).skip(k as int),
                out@,
                *lines as nat,
                line@,
                max_chars as nat,
                max_lines as nat,
            ),
            st != 0 ==> target == (st, out@, *lines as nat),
        decreases ws.len() - k, if st == 0 { 1int } else { 0int },
    {
        let w = &ws[k];
        let wb = bytes_of(w);
        let ghost rest = views(ws@).skip(k as int);
        proof {
            lemma_byte_len_bound(w@);
            assert(rest[0] == w@);
            assert(rest.drop_first() =~= views(ws@).skip(k + 1));
        }
        assert(line.len() <= usize::MAX && w.len() <= usize::MAX);
        if line_bytes + wb + 1 > max_chars as u128 && line.len() > 0 {
            if *lines >= max_lines - 1 {
                st = cut_off(out, &line, line_bytes, max_chars);
            } else {
                let ghost before = out@;
                append_all(out, &line);
                out.push('\n');
                assert(out@ =~= before + line@ + seq!['\n']);
                *lines = *lines + 1;
                line = copy_range(w, 0, w.len());
                assert(line@ =~= w@);
                line_bytes = wb;
                k = k + 1;
            }
        } else {
            line_bytes = extend_line(&mut line, line_bytes, w, wb);
            k = k + 1;
        }
    }
    if st != 0 {
        return st;
    }
    assert(views(ws@).skip(k as int) =~= Seq::<Seq<char>>::empty());
    if line.len() == 0 {
        return 0;
    }
    if *lines >= max_lines {
        return 1;
    }
    let ghost before = out@;
    append_all(out, &line);
    out.push('\n');
    assert(out@ =~= before + line@ + seq!['\n']);
    *lines = *lines + 1;
    0
}


/// Wraps a tweet body for the card: control characters other than line
/// breaks are dropped, the text is trimmed, each non-blank paragraph is
/// wrapped at `max_chars` bytes per line, and at most `max_lines` lines are
/// kept, the last cut with `...` when text remains; the cut falls on a
/// character boundary, so multi-byte text is never split inside a character.
pub fn word_wrap(text: &str, max_chars: usize, max_lines: usize) -> (r: String)
    ensures
        r@ == wrapped(text@, max_chars as nat, max_lines as nat),
{
    let cleaned = trimmed(&without_controls(&chars_of(text)));
    let mut nl: Vec<char> = Vec::new();
    nl.push('\n');
    assert(nl@ =~= seq!['\n']);
    let ps = split_on(&cleaned, &nl);
    let ghost sps = split(cleaned@, seq!['\n']);
    let ghost target = wrap_paragraphs(sps, seq![], 0, max_chars as nat, max_lines as nat);
    let mut out: Vec<char> = Vec::new();
    let mut lines: usize = 0;
    let mut st: u8 = 0;
    let mut k: usize = 0;
    assert(sps.skip(0) =~= sps);
    assert(views(ps@).len() == ps@.len());
    while k < ps.len() && st == 0
        invariant
            k <= ps.len(),
            views(ps@) == sps,
            lines <= max_lines,
            st == 0 ==> target == wrap_paragraphs(
                sps.skip(k as int),
                out@,
                lines as nat,
                max_chars as nat,
                max_lines as nat,
            ),
            st != 0 ==> target == (st, out@, lines as nat),
        decreases ps.len() - k, if st == 0 { 1int } else { 0int },
    {
        let ghost rest = sps.skip(k as int);
        proof {
            assert(rest[0] == ps[k as int]@);
            assert(rest.drop_first() =~= sps.skip(k + 1));
        }
        if lines >= max_lines {
            st = 1;
        } else {
            let p = trimmed(&ps[k]);
            if p.len() > 0 {
                let ws = words_of(&p);
                st = wrap_paragraph(&ws, &mut out, &mut lines, max_chars, max_lines);
            }
            if st == 0 {
                k = k + 1;
            }
        }
    }
    if st == 0 {
        assert(sps.skip(k as int) =~= Seq::<Seq<char>>::empty());
    }
    if st == 2 {
        return string_of(&out);
    }
    string_of(&trimmed_end(&out))
}

/// `s` without its trailing whitespace (`str::trim_end`).
fn trimmed_end(s: &Vec<char>) -> (r: Vec<char>)
    ensures
        r@ == trim_end(s@),
{
    let mut b: usize = s.len();
    assert(s@.subrange(0, b as int) =~= s@);
    while b > 0 && crate::text::is_whitespace(s[b - 1])
        invariant
            b <= s.len(),
            trim_end(s@) == trim_end(s@.subrange(0, b as int)),
        decreases b,
    {
        assert(s@.subrange(0, b as int).drop_last() =~= s@.subrange(0, b - 1));
        b = b - 1;
    }
    copy_range(s, 0, b)
}


/// Text made safe inside a single-quoted Python string literal: backslashes
/// doubled, then quotes and line breaks escaped.
pub open spec fn py_escaped(s: Seq<char>) -> Seq<char> {
    replace(replace(replace(s, "\\"@, "\\\\"@), "'"@, "\\'"@), "\n"@, "\\n"@)
}

/// Escapes text for a single-quoted Python string literal in the card script.
pub fn py_str(s: &str) -> (r: String)
    ensures
        r@ == py_escaped(s@),
{
    proof {
        reveal_strlit("\\");
        reveal_strlit("'");
        reveal_strlit("\n");
    }
    let a = replace_text(s, "\\", "\\\\");
    let b = replace_text(a.as_str(), "'", "\\'");
    replace_text(b.as_str(), "\n", "\\n")
}

/// The larger avatar picture of a profile image URL.
pub open spec fn hd_avatar_of(url: Seq<char>) -> Seq<char> {
    replace(url, "_normal."@, "_200x200."@)
}

/// The 200x200 version of a profile image URL (`_normal.` becomes `_200x200.`).
pub fn hd_avatar_url(url: &str) -> (r: String)
    ensures
        r@ == hd_avatar_of(url@),
{
    proof {
        reveal_strlit("_normal.");
    }
    replace_text(url, "_normal.", "_200x200.")
}

/// The font files tried for the card, in order of preference: the bundled
/// Geist variable font first, then other Geist files and system fonts.
pub open spec fn font_candidate_list() -> Seq<Seq<char>> {
    seq![
        "fonts/GeistVF.ttf"@,
        "fonts/Geist-Regular.ttf"@,
        "fonts/Geist-Regular.otf"@,
        "fonts/Geist.ttf"@,
        "C:/Windows/Fonts/segoeui.ttf"@,
        "C:/Windows/Fonts/arial.ttf"@,
        "/usr/share/fonts/truetype/noto/NotoSans-Regular.ttf"@,
        "/usr/share/fonts/opentype/noto/NotoSansCJK-Regular.ttc"@,
        "/usr/share/fonts/truetype/dejavu/DejaVuSans.ttf"@,
        "/usr/share/fonts/truetype/liberation/LiberationSans-Regular.ttf"@,
    ]
}

/// The font files tried for the card, in order of preference.
pub fn font_candidates() -> (r: Vec<String>)
    ensures
        r@.map_values(|c: String| c@) == font_candidate_list(),
{
    let parts: Vec<&str> = vec![
        "fonts/GeistVF.ttf",
        "fonts/Geist-Regular.ttf",
        "fonts/Geist-Regular.otf",
        "fonts/Geist.ttf",
        "C:/Windows/Fonts/segoeui.ttf",
        "C:/Windows/Fonts/arial.ttf",
        "/usr/share/fonts/truetype/noto/NotoSans-Regular.ttf",
        "/usr/share/fonts/opentype/noto/NotoSansCJK-Regular.ttc",
        "/usr/share/fonts/truetype/dejavu/DejaVuSans.ttf",
        "/usr/share/fonts/truetype/liberation/LiberationSans-Regular.ttf",
    ];
    let r = strings_of(parts.as_slice());
    assert(r@.map_values(|c: String| c@) =~= font_candidate_list());
    r
}

/// The first candidate at or after `i` that is present.
pub open spec fn first_present(present: Seq<bool>, i: int) -> Option<int>
    decreases present.len() - i,
{
    if i < 0 || i >= present.len() {
        None
    } else if present[i] {
        Some(i)
    } else {
        first_present(present, i + 1)
    }
}

/// The font to draw the card with: the first candidate of `font_candidates`
/// that exists (`present` tells which do, in the same order).
pub fn find_font(present: &Vec<bool>) -> (r: Option<String>)
    ensures
        match first_present(present@, 0) {
            Some(i) => if i < font_candidate_list().len() {
                r matches Some(f) && f@ == font_candidate_list()[i]
            } else {
                r is None
            },
            None => r is None,
        },
{
    let cands = font_candidates();
    let mut i: usize = 0;
    while i < present.len()
        invariant
            i <= present.len(),
            first_present(present@, 0) == first_present(present@, i as int),
            cands@.map_values(|c: String| c@) == font_candidate_list(),
        decreases present.len() - i,
    {
        if present[i] {
            if i < cands.len() {
                assert(cands@.map_values(|c: String| c@)[i as int] == cands@[i as int]@);
                return Some(cands[i].clone());
            }
            return None;
        }
        i = i + 1;
    }
    None
}

/// The width at which the card is rendered at most.
pub const MAX_RENDER_W: i32 = 1280;

/// The size the video is rendered at, and whether it must be scaled: a video
/// wider than `MAX_RENDER_W` is scaled to that width and to `scaled_h` (its
/// height scaled alike, computed by the caller); a narrower one keeps its
/// width and has its height rounded up to an even number.
pub open spec fn render_size_of(raw_w: int, raw_h: int, scaled_h: int) -> (int, int, bool) {
    let (w, h) = if raw_w > MAX_RENDER_W {
        (MAX_RENDER_W as int, scaled_h)
    } else if raw_h % 2 == 0 {
        (raw_w, raw_h)
    } else {
        (raw_w, raw_h + 1)
    };
    (w, h, w != raw_w || h != raw_h)
}

/// The size the video is rendered at, and whether it must be scaled.
pub fn render_size(raw_w: i32, raw_h: i32, scaled_h: i32) -> (r: (i32, i32, bool))
    requires
        raw_w > MAX_RENDER_W || raw_h < i32::MAX,
    ensures
        (r.0 as int, r.1 as int, r.2) == render_size_of(raw_w as int, raw_h as int, scaled_h as int),
{
    let (w, h) = if raw_w > MAX_RENDER_W {
        (MAX_RENDER_W, scaled_h)
    } else if raw_h % 2 == 0 {
        (raw_w, raw_h)
    } else {
        (raw_w, raw_h + 1)
    };
    (w, h, w != raw_w || h != raw_h)
}

/// Whether `x` is a 32-bit signed value.
pub open spec fn fits_i32(x: int) -> bool {
    i32::MIN <= x <= i32::MAX
}

/// The number of body lines the card makes room for: the lines of the
/// wrapped body, at least one.
pub open spec fn body_line_total(wrapped: Seq<char>) -> int {
    if lines(wrapped).len() == 0 {
        1
    } else {
        lines(wrapped).len() as int
    }
}

/// The heights of the card around the video, as
/// `(body lines, header height, top bar, bottom bar, video display width)`,
/// from the card's scaled sizes; `None` where a step of the computation leaves
/// the 32-bit range.
pub open spec fn card_heights_of(
    wrapped: Seq<char>,
    vid_w: int,
    pad_top: int,
    ava_size: int,
    sec_gap: int,
    body_fs: int,
    body_lh: int,
    footer_fs: int,
    footer_pad: int,
    vid_pad_h: int,
) -> Option<(int, int, int, int, int)> {
    let n = body_line_total(wrapped);
    let line_h = body_fs + body_lh;
    let block = n * line_h;
    let block_h = block - body_lh;
    let head = pad_top + ava_size;
    let header_h = head + sec_gap;
    let body_h = block_h + sec_gap;
    let top_bar = header_h + body_h;
    let foot = sec_gap + footer_fs;
    let bot_bar = foot + footer_pad;
    let pad2 = vid_pad_h * 2;
    let vid_dw = vid_w - pad2;
    if fits_i32(n) && fits_i32(line_h) && fits_i32(block) && fits_i32(block_h) && fits_i32(head)
        && fits_i32(header_h) && fits_i32(body_h) && fits_i32(top_bar) && fits_i32(foot)
        && fits_i32(bot_bar) && fits_i32(pad2) && fits_i32(vid_dw) {
        Some((n, header_h, top_bar, bot_bar, vid_dw))
    } else {
        None
    }
}

/// The heights of the card around the video.
#[derive(Debug, Clone, Copy)]
pub struct CardHeights {
    /// Lines of body text the card makes room for.
    pub body_lines: i32,
    /// Height of the author header, with the gap below it.
    pub header_h: i32,
    /// Height of the card above the video.
    pub top_bar: i32,
    /// Height of the card below the video.
    pub bot_bar: i32,
    /// Width of the video inside its side padding.
    pub vid_dw: i32,
}

/// Lays out the card around the video: the header holds the avatar, the body
/// one line of `body_fs + body_lh` pixels per wrapped line (without the last
/// line gap), the bottom bar the footer; `None` where the sizes overflow.
pub fn card_heights(
    wrapped: &str,
    vid_w: i32,
    pad_top: i32,
    ava_size: i32,
    sec_gap: i32,
    body_fs: i32,
    body_lh: i32,
    footer_fs: i32,
    footer_pad: i32,
    vid_pad_h: i32,
) -> (r: Option<CardHeights>)
    ensures
        match card_heights_of(
            wrapped@,
            vid_w as int,
            pad_top as int,
            ava_size as int,
            sec_gap as int,
            body_fs as int,
            body_lh as int,
            footer_fs as int,
            footer_pad as int,
            vid_pad_h as int,
        ) {
            Some(t) => r matches Some(h) && h.body_lines == t.0 && h.header_h == t.1
                && h.top_bar == t.2 && h.bot_bar == t.3 && h.vid_dw == t.4,
            None => r is None,
        },
{
    let ls = lines_of(&chars_of(wrapped));
    let count: usize = if ls.len() == 0 { 1 } else { ls.len() };
    if count > 2147483647usize {
        return None;
    }
    let n: i32 = count as i32;
    let line_h: i32 = match body_fs.checked_add(body_lh) { Some(x) => x, None => return None };
    let block: i32 = match n.checked_mul(line_h) { Some(x) => x, None => return None };
    let block_h: i32 = match block.checked_sub(body_lh) { Some(x) => x, None => return None };
    let head: i32 = match pad_top.checked_add(ava_size) { Some(x) => x, None => return None };
    let header_h: i32 = match head.checked_add(sec_gap) { Some(x) => x, None => return None };
    let body_h: i32 = match block_h.checked_add(sec_gap) { Some(x) => x, None => return None };
    let top_bar: i32 = match header_h.checked_add(body_h) { Some(x) => x, None => return None };
    let foot: i32 = match sec_gap.checked_add(footer_fs) { Some(x) => x, None => return None };
    let bot_bar: i32 = match foot.checked_add(footer_pad) { Some(x) => x, None => return None };
    let pad2: i32 = match vid_pad_h.checked_mul(2) { Some(x) => x, None => return None };
    let vid_dw: i32 = match vid_w.checked_sub(pad2) { Some(x) => x, None => return None };
    Some(CardHeights { body_lines: n, header_h, top_bar, bot_bar, vid_dw })
}

/// The ffmpeg filter graph that lays the card over the video: the source
/// (scaled down when needed) is scaled to the display area, rounded by the
/// mask, placed on a black canvas below the top card, and both cards (drawn
/// at twice the size) are scaled back and laid over it.
pub open spec fn overlay_filter_text(
    needs_scale: bool,
    vid_w: int,
    vid_h: int,
    vid_dw: int,
    display_h: int,
    vid_pad_h: int,
    top_bar: int,
    bot_bar: int,
) -> Seq<char> {
    (if needs_scale {
        "[0:v]scale=w="@ + int_text(vid_w) + ":h="@ + int_text(vid_h) + ":flags=lanczos[src];"@
    } else {
        "[0:v]copy[src];"@
    }) + "[src]scale=w="@ + int_text(vid_dw) + ":h="@ + int_text(display_h)
        + ":flags=lanczos[scaled];"@ + "[scaled][3:v]alphamerge[rounded];"@ + "color=c=black:s="@
        + int_text(vid_w) + "x"@ + int_text(top_bar + display_h + bot_bar) + "[bg];"@
        + "[bg][rounded]overlay=x="@ + int_text(vid_pad_h) + ":y="@ + int_text(top_bar)
        + "[with_video];"@ + "[1:v]scale=w="@ + int_text(vid_w) + ":h="@ + int_text(top_bar)
        + ":flags=lanczos[top_ds];"@ + "[2:v]scale=w="@ + int_text(vid_w) + ":h="@ + int_text(
        bot_bar,
    ) + ":flags=lanczos[bot_ds];"@ + "[with_video][top_ds]overlay=x=0:y=0[with_top];"@
        + "[with_top][bot_ds]overlay=x=0:y="@ + int_text(top_bar + display_h) + "[final];"@
}

/// The ffmpeg filter graph that lays the card over the video.
pub fn overlay_filter(
    needs_scale: bool,
    vid_w: i32,
    vid_h: i32,
    vid_dw: i32,
    display_h: i32,
    vid_pad_h: i32,
    top_bar: i32,
    bot_bar: i32,
) -> (f: String)
    requires
        i32::MIN <= top_bar + display_h <= i32::MAX,
        i32::MIN <= top_bar + display_h + bot_bar <= i32::MAX,
    ensures
        f@ == overlay_filter_text(
            needs_scale,
            vid_w as int,
            vid_h as int,
            vid_dw as int,
            display_h as int,
            vid_pad_h as int,
            top_bar as int,
            bot_bar as int,
        ),
{
    let total_h = top_bar + display_h + bot_bar;
    let bot_y = top_bar + display_h;
    let mut v: Vec<char> = Vec::new();
    if needs_scale {
        append_all(&mut v, &chars_of("[0:v]scale=w="));
        push_int(&mut v, vid_w as i64);
        append_all(&mut v, &chars_of(":h="));
        push_int(&mut v, vid_h as i64);
        append_all(&mut v, &chars_of(":flags=lanczos[src];"));
    } else {
        append_all(&mut v, &chars_of("[0:v]copy[src];"));
    }
    append_all(&mut v, &chars_of("[src]scale=w="));
    push_int(&mut v, vid_dw as i64);
    append_all(&mut v, &chars_of(":h="));
    push_int(&mut v, display_h as i64);
    append_all(&mut v, &chars_of(":flags=lanczos[scaled];"));
    append_all(&mut v, &chars_of("[scaled][3:v]alphamerge[rounded];"));
    append_all(&mut v, &chars_of("color=c=black:s="));
    push_int(&mut v, vid_w as i64);
    append_all(&mut v, &chars_of("x"));
    push_int(&mut v, total_h as i64);
    append_all(&mut v, &chars_of("[bg];"));
    append_all(&mut v, &chars_of("[bg][rounded]overlay=x="));
    push_int(&mut v, vid_pad_h as i64);
    append_all(&mut v, &chars_of(":y="));
    push_int(&mut v, top_bar as i64);
    append_all(&mut v, &chars_of("[with_video];"));
    append_all(&mut v, &chars_of("[1:v]scale=w="));
    push_int(&mut v, vid_w as i64);
    append_all(&mut v, &chars_of(":h="));
    push_int(&mut v, top_bar as i64);
    append_all(&mut v, &chars_of(":flags=lanczos[top_ds];"));
    append_all(&mut v, &chars_of("[2:v]scale=w="));
    push_int(&mut v, vid_w as i64);
    append_all(&mut v, &chars_of(":h="));
    push_int(&mut v, bot_bar as i64);
    append_all(&mut v, &chars_of(":flags=lanczos[bot_ds];"));
    append_all(&mut v, &chars_of("[with_video][top_ds]overlay=x=0:y=0[with_top];"));
    append_all(&mut v, &chars_of("[with_top][bot_ds]overlay=x=0:y="));
    push_int(&mut v, bot_y as i64);
    append_all(&mut v, &chars_of("[final];"));
    assert(v@ =~= overlay_filter_text(
        needs_scale,
        vid_w as int,
        vid_h as int,
        vid_dw as int,
        display_h as int,
        vid_pad_h as int,
        top_bar as int,
        bot_bar as int,
    ));
    string_of(&v)
}

/// The ffmpeg arguments that render the overlay into `out`.
pub open spec fn overlay_arg_list(
    video: Seq<char>,
    card_top: Seq<char>,
    card_bot: Seq<char>,
    mask: Seq<char>,
    filter: Seq<char>,
    encoder: VideoEncoder,
    out: Seq<char>,
) -> Seq<Seq<char>> {
    seq![
        "-y"@, "-i"@, video, "-i"@, card_top, "-i"@, card_bot, "-i"@, mask,
        "-filter_complex"@, filter, "-map"@, "[final]"@, "-map"@, "0:a?"@,
    ] + encoder_arg_list(encoder) + seq![
        "-c:a"@, "copy"@, "-movflags"@, "+faststart"@, "-shortest"@, out,
    ]
}

/// The ffmpeg arguments that render the overlay into `out`: the video and the
/// three card images as inputs, the filter graph, the encoder's settings, the
/// audio copied, and the output stopped with the shortest stream.
pub fn overlay_ffmpeg_args(
    video: &str,
    card_top: &str,
    card_bot: &str,
    mask: &str,
    filter: &str,
    encoder: VideoEncoder,
    out: &str,
) -> (args: Vec<String>)
    ensures
        args@.map_values(|a: String| a@) == overlay_arg_list(
            video@,
            card_top@,
            card_bot@,
            mask@,
            filter@,
            encoder,
            out@,
        ),
{
    let mut args = strings_of(
        &[
            "-y",
            "-i",
            video,
            "-i",
            card_top,
            "-i",
            card_bot,
            "-i",
            mask,
            "-filter_complex",
            filter,
            "-map",
            "[final]",
            "-map",
            "0:a?",
        ],
    );
    let ghost first = args@.map_values(|a: String| a@);
    let mut enc = encoder_args(encoder);
    let ghost second = enc@.map_values(|a: String| a@);
    args.append(&mut enc);
    let mut tail = strings_of(&["-c:a", "copy", "-movflags", "+faststart", "-shortest", out]);
    let ghost third = tail@.map_values(|a: String| a@);
    let ghost mid = args@;
    args.append(&mut tail);
    assert(args@.map_values(|a: String| a@) =~= first + second + third);
    assert(first =~= seq![
        "-y"@, "-i"@, video@, "-i"@, card_top@, "-i"@, card_bot@, "-i"@, mask@,
        "-filter_complex"@, filter@, "-map"@, "[final]"@, "-map"@, "0:a?"@,
    ]);
    assert(third =~= seq!["-c:a"@, "copy"@, "-movflags"@, "+faststart"@, "-shortest"@, out@]);
    args
}


/// The value `str::parse::<i32>` reads from `s`: an optional sign, then one
/// or more ASCII digits, when the value fits in 32 bits.
pub open spec fn i32_value(s: Seq<char>) -> Option<int> {
    let neg = s.len() > 0 && s[0] == '-';
    let d = signed_digits(s);
    if d.len() == 0 || !all_digits(d) {
        None
    } else {
        let v = if neg {
            -(digits_value(d) as int)
        } else {
            digits_value(d) as int
        };
        if i32::MIN <= v <= i32::MAX {
            Some(v)
        } else {
            None
        }
    }
}

/// `s` without the one leading sign a signed number may carry.
pub open spec fn signed_digits(s: Seq<char>) -> Seq<char> {
    if s.len() > 0 && (s[0] == '-' || s[0] == '+') {
        s.drop_first()
    } else {
        s
    }
}

/// Reads a 32-bit integer as `str::parse::<i32>` does.
fn parse_i32(s: &Vec<char>) -> (r: Option<i32>)
    ensures
        match r {
            Some(v) => i32_value(s@) == Some(v as int),
            None => i32_value(s@) is None,
        },
{
    let neg = s.len() > 0 && s[0] == '-';
    let start: usize = if s.len() > 0 && (s[0] == '-' || s[0] == '+') {
        1
    } else {
        0
    };
    let ghost d = signed_digits(s@);
    assert(d =~= s@.skip(start as int));
    if start == s.len() {
        return None;
    }
    let mut value: u64 = 0;
    let mut k: usize = start;
    while k < s.len()
        invariant
            start <= k <= s.len(),
            d =~= s@.skip(start as int),
            d == signed_digits(s@),
            value as nat == digits_value(d.take(k - start)),
            value <= 0x8000_0000,
            forall|i: int| 0 <= i < k - start ==> is_digit(#[trigger] d[i]),
        decreases s.len() - k,
    {
        let c = s[k];
        assert(d[k - start] == c);
        if !('0' <= c && c <= '9') {
            assert(!is_digit(d[k - start]));
            assert(!all_digits(d));
            return None;
        }
        value = value * 10 + (c as u32 - 48) as u64;
        assert(d.take(k + 1 - start).drop_last() =~= d.take(k - start));
        k = k + 1;
        if value > 0x8000_0000 {
            proof {
                lemma_digits_value_prefix(d, k - start);
            }
            return None;
        }
    }
    assert(d.take(k - start) =~= d);
    assert(all_digits(d));
    if neg {
        Some((0 - value as i64) as i32)
    } else if value <= 0x7fff_ffff {
        Some(value as i32)
    } else {
        None
    }
}

/// The width and height that `ffprobe -of csv=p=0` printed: the first two
/// comma-separated fields of the trimmed output.
pub open spec fn probed_dims(out: Seq<char>) -> Result<(int, int), Seq<char>> {
    let parts = split(trim(out), seq![',']);
    match i32_value(parts[0]) {
        None => Err("failed to parse video width"@),
        Some(w) => match if parts.len() >= 2 {
            i32_value(parts[1])
        } else {
            None
        } {
            None => Err("failed to parse video height"@),
            Some(h) => Ok((w, h)),
        },
    }
}

/// Reads the video's width and height from what ffprobe printed; an
/// `Ffmpeg` error names the field that does not parse.
pub fn parse_video_dims(out: &str) -> (r: Result<(i32, i32), AppError>)
    ensures
        match probed_dims(out@) {
            Ok((w, h)) => r matches Ok((rw, rh)) && rw == w && rh == h,
            Err(m) => r matches Err(AppError::Ffmpeg(e)) && e@ == m,
        },
{
    let t = trimmed(&chars_of(out));
    let mut comma: Vec<char> = Vec::new();
    comma.push(',');
    assert(comma@ =~= seq![',']);
    let parts = split_on(&t, &comma);
    let ghost sp = split(trim(out@), seq![',']);
    assert(views(parts@).len() == parts@.len());
    proof {
        crate::text::lemma_split_nonempty(t@, comma@);
    }
    assert(parts[0]@ == sp[0]);
    let w = match parse_i32(&parts[0]) {
        Some(w) => w,
        None => {
            return Err(AppError::Ffmpeg("failed to parse video width".to_string()));
        },
    };
    if parts.len() < 2 {
        return Err(AppError::Ffmpeg("failed to parse video height".to_string()));
    }
    assert(parts[1]@ == sp[1]);
    let h = match parse_i32(&parts[1]) {
        Some(h) => h,
        None => {
            return Err(AppError::Ffmpeg("failed to parse video height".to_string()));
        },
    };
    Ok((w, h))
}


/// The number of line breaks in `s`.
pub open spec fn count_newlines(s: Seq<char>) -> nat
    decreases s.len(),
{
    if s.len() == 0 {
        0
    } else {
        count_newlines(s.drop_last()) + if s.last() == '\n' {
            1nat
        } else {
            0nat
        }
    }
}

/// `s` holds no line break.
pub open spec fn no_newline(s: Seq<char>) -> bool {
    forall|i: int| 0 <= i < s.len() ==> #[trigger] s[i] != '\n'
}

proof fn lemma_count_newline_char()
    ensures
        count_newlines(seq!['\n']) == 1,
{
    assert(seq!['\n'].drop_last() =~= Seq::<char>::empty());
    assert(count_newlines(Seq::<char>::empty()) == 0);
    assert(seq!['\n'].last() == '\n');
}

/// `s` is empty or ends with a line break.
spec fn ends_line(s: Seq<char>) -> bool {
    s.len() == 0 || s.last() == '\n'
}

proof fn lemma_count_append(a: Seq<char>, b: Seq<char>)
    ensures
        count_newlines(a + b) == count_newlines(a) + count_newlines(b),
    decreases b.len(),
{
    if b.len() == 0 {
        assert(a + b =~= a);
    } else {
        lemma_count_append(a, b.drop_last());
        assert((a + b).drop_last() =~= a + b.drop_last());
    }
}

proof fn lemma_count_no_newline(s: Seq<char>)
    requires
        no_newline(s),
    ensures
        count_newlines(s) == 0,
    decreases s.len(),
{
    if s.len() > 0 {
        assert(s[s.len() - 1] != '\n');
        lemma_count_no_newline(s.drop_last());
    }
}

proof fn lemma_count_zero(s: Seq<char>)
    requires
        count_newlines(s) == 0,
    ensures
        no_newline(s),
    decreases s.len(),
{
    if s.len() > 0 {
        lemma_count_zero(s.drop_last());
        assert forall|i: int| 0 <= i < s.len() implies #[trigger] s[i] != '\n' by {
            if i < s.len() - 1 {
                assert(s.drop_last()[i] == s[i]);
            }
        }
    }
}

proof fn lemma_count_prefix(s: Seq<char>, k: int)
    requires
        0 <= k <= s.len(),
    ensures
        count_newlines(s.take(k)) <= count_newlines(s),
    decreases s.len() - k,
{
    if k < s.len() {
        lemma_count_prefix(s, k + 1);
        assert(s.take(k + 1).drop_last() =~= s.take(k));
    } else {
        assert(s.take(k) =~= s);
    }
}

proof fn lemma_trim_end_prefix(s: Seq<char>)
    ensures
        trim_end(s).len() <= s.len(),
        trim_end(s) == s.take(trim_end(s).len() as int),
    decreases s.len(),
{
    if s.len() > 0 && crate::text::is_ws(s.last()) {
        lemma_trim_end_prefix(s.drop_last());
        let t = trim_end(s.drop_last());
        assert(s.drop_last().take(t.len() as int) =~= s.take(t.len() as int));
    } else {
        assert(s.take(s.len() as int) =~= s);
    }
}

/// Trimming a text that ends with a line break drops at least that break.
proof fn lemma_trim_end_count(s: Seq<char>)
    requires
        s.len() > 0,
        s.last() == '\n',
    ensures
        count_newlines(trim_end(s)) < count_newlines(s),
{
    let d = s.drop_last();
    lemma_trim_end_prefix(d);
    lemma_count_prefix(d, trim_end(d).len() as int);
    assert(trim_end(s) == trim_end(d));
}

proof fn lemma_words_no_ws_from(s: Seq<char>, i: int)
    requires
        0 <= i <= s.len(),
    ensures
        forall|k: int| 0 <= k < words_from(s, i).len() ==> no_newline(#[trigger] words_from(s, i)[k]),
    decreases s.len() - i,
{
    if i < s.len() {
        if crate::text::is_ws(s[i]) {
            lemma_words_no_ws_from(s, i + 1);
            assert(words_from(s, i) == words_from(s, i + 1));
        } else {
            crate::text::lemma_word_end(s, i);
            let e = crate::text::word_end(s, i);
            lemma_words_no_ws_from(s, e);
            let w = s.subrange(i, e);
            assert forall|t: int| 0 <= t < w.len() implies #[trigger] w[t] != '\n' by {
                assert(w[t] == s[i + t]);
                assert(!crate::text::is_ws(s[i + t]));
            }
            let r = words_from(s, i);
            assert(r == seq![w] + words_from(s, e));
            assert forall|k: int| 0 <= k < r.len() implies no_newline(#[trigger] r[k]) by {
                if k == 0 {
                    assert(r[0] == w);
                } else {
                    assert(r[k] == words_from(s, e)[k - 1]);
                }
            }
        }
    }
}

proof fn lemma_char_prefix_is_prefix(s: Seq<char>, n: int)
    ensures
        ({
            let p = char_prefix(s, n);
            p.len() <= s.len() && p == s.take(p.len() as int)
        }),
    decreases s.len(),
{
    if s.len() == 0 || utf8_len(s[0]) > n {
        assert(Seq::<char>::empty() =~= s.take(0));
    } else {
        lemma_char_prefix_is_prefix(s.drop_first(), n - utf8_len(s[0]));
        let q = char_prefix(s.drop_first(), n - utf8_len(s[0]));
        assert(seq![s[0]] + q =~= s.take(q.len() + 1int));
    }
}

proof fn lemma_wrap_words_lines(
    ws: Seq<Seq<char>>,
    out: Seq<char>,
    lines: nat,
    line: Seq<char>,
    max_chars: nat,
    max_lines: nat,
)
    requires
        count_newlines(out) == lines,
        ends_line(out),
        lines < max_lines,
        no_newline(line),
        forall|k: int| 0 <= k < ws.len() ==> no_newline(#[trigger] ws[k]),
    ensures
        ({
            let r = wrap_words(ws, out, lines, line, max_chars, max_lines);
            &&& r.0 <= 2
            &&& (r.0 == 0 || r.0 == 1) ==> count_newlines(r.1) == r.2 && r.2 <= max_lines
                && ends_line(r.1)
            &&& r.0 == 2 ==> count_newlines(r.1) < max_lines
        }),
    decreases ws.len(),
{
    if ws.len() == 0 {
        if line.len() > 0 && lines < max_lines {
            lemma_count_no_newline(line);
            lemma_count_append(out, line);
            lemma_count_append(out + line, seq!['\n']);
            lemma_count_newline_char();
            assert((out + line + seq!['\n']).last() == '\n');
        }
    } else {
        let w = ws[0];
        assert(no_newline(w));
        let rest = ws.drop_first();
        assert forall|k: int| 0 <= k < rest.len() implies no_newline(#[trigger] rest[k]) by {
            assert(rest[k] == ws[k + 1]);
        }
        if byte_len(line) + byte_len(w) + 1 > max_chars && line.len() > 0 {
            if lines >= max_lines - 1 {
                let idx = if byte_len(line) < cut_point(max_chars) {
                    byte_len(line)
                } else {
                    cut_point(max_chars)
                };
                {
                    let p = char_prefix(line, idx as int);
                    lemma_char_prefix_is_prefix(line, idx as int);
                    assert(no_newline(p)) by {
                        assert forall|i: int| 0 <= i < p.len() implies #[trigger] p[i] != '\n' by {
                            assert(p[i] == line[i]);
                        }
                    }
                    lemma_count_no_newline(p);
                    reveal_strlit("...");
                    assert(no_newline("..."@));
                    lemma_count_no_newline("..."@);
                    lemma_count_append(out, p);
                    lemma_count_append(out + p, "..."@);
                }
            } else {
                lemma_count_no_newline(line);
                lemma_count_append(out, line);
                lemma_count_append(out + line, seq!['\n']);
                lemma_count_newline_char();
                assert((out + line + seq!['\n']).last() == '\n');
                lemma_wrap_words_lines(rest, out + line + seq!['\n'], lines + 1, w, max_chars, max_lines);
            }
        } else {
            let next = if line.len() == 0 {
                w
            } else {
                line + seq![' '] + w
            };
            assert(no_newline(next)) by {
                assert forall|i: int| 0 <= i < next.len() implies #[trigger] next[i] != '\n' by {
                    if line.len() > 0 {
                        if i < line.len() {
                            assert(next[i] == line[i]);
                        } else if i > line.len() {
                            assert(next[i] == w[i - line.len() - 1]);
                        }
                    }
                }
            }
            lemma_wrap_words_lines(rest, out, lines, next, max_chars, max_lines);
        }
    }
}

proof fn lemma_wrap_paragraphs_lines(
    ps: Seq<Seq<char>>,
    out: Seq<char>,
    lines: nat,
    max_chars: nat,
    max_lines: nat,
)
    requires
        count_newlines(out) == lines,
        ends_line(out),
        lines <= max_lines,
    ensures
        ({
            let r = wrap_paragraphs(ps, out, lines, max_chars, max_lines);
            &&& r.0 <= 2
            &&& (r.0 == 0 || r.0 == 1) ==> count_newlines(r.1) == r.2 && r.2 <= max_lines
                && ends_line(r.1)
            &&& r.0 == 2 ==> count_newlines(r.1) < max_lines
        }),
    decreases ps.len(),
{
    if ps.len() > 0 && lines < max_lines {
        if trim(ps[0]).len() == 0 {
            lemma_wrap_paragraphs_lines(ps.drop_first(), out, lines, max_chars, max_lines);
        } else {
            let ws = words(trim(ps[0]));
            lemma_words_no_ws_from(trim(ps[0]), 0);
            lemma_wrap_words_lines(ws, out, lines, seq![], max_chars, max_lines);
            let r = wrap_words(ws, out, lines, seq![], max_chars, max_lines);
            if r.0 == 0 {
                lemma_wrap_paragraphs_lines(ps.drop_first(), r.1, r.2, max_chars, max_lines);
            }
        }
    }
}

/// The wrapped tweet body never has more than `max_lines` lines: it holds
/// fewer than `max_lines` line breaks, and is empty when `max_lines` is 0.
pub proof fn law_wrapped_line_limit(text: Seq<char>, max_chars: nat, max_lines: nat)
    ensures
        ({
            let w = wrapped(text, max_chars, max_lines);
            &&& max_lines == 0 ==> w.len() == 0
            &&& max_lines > 0 ==> count_newlines(w) < max_lines
        }),
{
    let cleaned = trim(drop_controls(text));
    let ps = split(cleaned, seq!['\n']);
    assert(count_newlines(Seq::<char>::empty()) == 0);
    lemma_wrap_paragraphs_lines(ps, seq![], 0, max_chars, max_lines);
    let r = wrap_paragraphs(ps, seq![], 0, max_chars, max_lines);
    let w = wrapped(text, max_chars, max_lines);
    if r.0 == 2 {
        assert(w == r.1);
        assert(count_newlines(w) < max_lines);
    } else {
        assert(w == trim_end(r.1));
        assert(count_newlines(r.1) == r.2 && r.2 <= max_lines && ends_line(r.1));
        if r.2 == 0 {
            lemma_count_zero(r.1);
            if r.1.len() > 0 {
                assert(r.1[r.1.len() - 1] != '\n');
                assert(false);
            }
            assert(r.1 =~= Seq::<char>::empty());
            assert(trim_end(r.1) == r.1);
            assert(w.len() == 0);
        } else {
            if r.1.len() == 0 {
                assert(count_newlines(r.1) == 0);
                assert(false);
            }
            assert(r.1.last() == '\n');
            lemma_trim_end_count(r.1);
            assert(count_newlines(w) < max_lines);
        }
    }
}


/// A text that holds `p` between two others contains it.
proof fn lemma_contains_middle(a: Seq<char>, p: Seq<char>, b: Seq<char>)
    ensures
        contains(a + p + b, p),
{
    let s = a + p + b;
    assert(s.subrange(a.len() as int, (a.len() + p.len()) as int) =~= p);
    assert(occurs_at(s, p, a.len() as int));
    lemma_find_from(s, p, 0);
}

/// The pieces of the overlay filter graph, in order.
#[verifier::opaque]
spec fn filter_parts(
    needs_scale: bool,
    vid_w: int,
    vid_h: int,
    vid_dw: int,
    display_h: int,
    vid_pad_h: int,
    top_bar: int,
    bot_bar: int,
) -> (Seq<char>, Seq<char>, Seq<char>, Seq<char>, Seq<char>, Seq<char>) {
    let first = if needs_scale {
        "[0:v]scale=w="@ + int_text(vid_w) + ":h="@ + int_text(vid_h) + ":flags=lanczos[src];"@
    } else {
        "[0:v]copy[src];"@
    };
    let video = "[src]scale=w="@ + int_text(vid_dw) + ":h="@ + int_text(display_h)
        + ":flags=lanczos[scaled];"@ + "[scaled][3:v]alphamerge[rounded];"@;
    let canvas = "color=c=black:s="@ + int_text(vid_w) + "x"@ + int_text(top_bar + display_h + bot_bar)
        + "[bg];"@;
    let place = "[bg][rounded]overlay=x="@ + int_text(vid_pad_h) + ":y="@ + int_text(top_bar)
        + "[with_video];"@;
    let cards = "[1:v]scale=w="@ + int_text(vid_w) + ":h="@ + int_text(top_bar)
        + ":flags=lanczos[top_ds];"@ + "[2:v]scale=w="@ + int_text(vid_w) + ":h="@ + int_text(bot_bar)
        + ":flags=lanczos[bot_ds];"@ + "[with_video][top_ds]overlay=x=0:y=0[with_top];"@;
    let footer = "[with_top][bot_ds]overlay=x=0:y="@ + int_text(top_bar + display_h) + "[final];"@;
    (first, video, canvas, place, cards, footer)
}

#[verifier::rlimit(50)]
proof fn lemma_filter_parts(
    needs_scale: bool,
    vid_w: int,
    vid_h: int,
    vid_dw: int,
    display_h: int,
    vid_pad_h: int,
    top_bar: int,
    bot_bar: int,
)
    ensures
        ({
            let q = filter_parts(needs_scale, vid_w, vid_h, vid_dw, display_h, vid_pad_h, top_bar, bot_bar);
            &&& overlay_filter_text(needs_scale, vid_w, vid_h, vid_dw, display_h, vid_pad_h, top_bar, bot_bar)
                == q.0 + q.1 + q.2 + q.3 + q.4 + q.5
            &&& q.0 == if needs_scale {
                "[0:v]scale=w="@ + int_text(vid_w) + ":h="@ + int_text(vid_h) + ":flags=lanczos[src];"@
            } else {
                "[0:v]copy[src];"@
            }
            &&& q.1 == filter_parts(!needs_scale, vid_w, vid_h, vid_dw, display_h, vid_pad_h, top_bar, bot_bar).1
            &&& q.2 == filter_parts(!needs_scale, vid_w, vid_h, vid_dw, display_h, vid_pad_h, top_bar, bot_bar).2
            &&& q.3 == filter_parts(!needs_scale, vid_w, vid_h, vid_dw, display_h, vid_pad_h, top_bar, bot_bar).3
            &&& q.4 == filter_parts(!needs_scale, vid_w, vid_h, vid_dw, display_h, vid_pad_h, top_bar, bot_bar).4
            &&& q.5 == filter_parts(!needs_scale, vid_w, vid_h, vid_dw, display_h, vid_pad_h, top_bar, bot_bar).5
            &&& q.2 == "color=c=black:s="@ + int_text(vid_w) + "x"@ + int_text(top_bar + display_h + bot_bar)
                + "[bg];"@
            &&& q.3 == "[bg][rounded]overlay=x="@ + int_text(vid_pad_h) + ":y="@ + int_text(top_bar)
                + "[with_video];"@
            &&& q.5 == "[with_top][bot_ds]overlay=x=0:y="@ + int_text(top_bar + display_h) + "[final];"@
        }),
{
    reveal(filter_parts);
    let q = filter_parts(needs_scale, vid_w, vid_h, vid_dw, display_h, vid_pad_h, top_bar, bot_bar);
    assert(overlay_filter_text(needs_scale, vid_w, vid_h, vid_dw, display_h, vid_pad_h, top_bar, bot_bar)
        =~= q.0 + q.1 + q.2 + q.3 + q.4 + q.5);
}

/// The canvas of the overlay is as tall as the top card, the video and the
/// bottom card together, and the bottom card is laid right below the video,
/// so that it ends at the canvas's bottom edge; whether the source is scaled
/// first changes only the first filter.
pub proof fn law_overlay_canvas(
    needs_scale: bool,
    vid_w: int,
    vid_h: int,
    vid_dw: int,
    display_h: int,
    vid_pad_h: int,
    top_bar: int,
    bot_bar: int,
)
    ensures
        contains(
            overlay_filter_text(needs_scale, vid_w, vid_h, vid_dw, display_h, vid_pad_h, top_bar, bot_bar),
            "color=c=black:s="@ + int_text(vid_w) + "x"@ + int_text(top_bar + display_h + bot_bar) + "[bg];"@,
        ),
        contains(
            overlay_filter_text(needs_scale, vid_w, vid_h, vid_dw, display_h, vid_pad_h, top_bar, bot_bar),
            "[with_top][bot_ds]overlay=x=0:y="@ + int_text(top_bar + display_h) + "[final];"@,
        ),
        contains(
            overlay_filter_text(needs_scale, vid_w, vid_h, vid_dw, display_h, vid_pad_h, top_bar, bot_bar),
            "[bg][rounded]overlay=x="@ + int_text(vid_pad_h) + ":y="@ + int_text(top_bar) + "[with_video];"@,
        ),
        overlay_filter_text(true, vid_w, vid_h, vid_dw, display_h, vid_pad_h, top_bar, bot_bar) == "[0:v]scale=w="@
            + int_text(vid_w) + ":h="@ + int_text(vid_h) + ":flags=lanczos[src];"@ + overlay_filter_text(
            false,
            vid_w,
            vid_h,
            vid_dw,
            display_h,
            vid_pad_h,
            top_bar,
            bot_bar,
        ).skip("[0:v]copy[src];"@.len() as int),
{
    let q = filter_parts(needs_scale, vid_w, vid_h, vid_dw, display_h, vid_pad_h, top_bar, bot_bar);
    lemma_filter_parts(needs_scale, vid_w, vid_h, vid_dw, display_h, vid_pad_h, top_bar, bot_bar);
    lemma_contains_parts(q.0, q.1, q.2, q.3, q.4, q.5);
    let qt = filter_parts(true, vid_w, vid_h, vid_dw, display_h, vid_pad_h, top_bar, bot_bar);
    let qf = filter_parts(false, vid_w, vid_h, vid_dw, display_h, vid_pad_h, top_bar, bot_bar);
    lemma_filter_parts(true, vid_w, vid_h, vid_dw, display_h, vid_pad_h, top_bar, bot_bar);
    lemma_filter_parts(false, vid_w, vid_h, vid_dw, display_h, vid_pad_h, top_bar, bot_bar);
    lemma_swap_first(qt.0, qf.0, qf.1, qf.2, qf.3, qf.4, qf.5);
}

/// Each of the middle and last pieces of a text occurs in it.
proof fn lemma_contains_parts(
    a: Seq<char>,
    b: Seq<char>,
    c: Seq<char>,
    d: Seq<char>,
    e: Seq<char>,
    g: Seq<char>,
)
    ensures
        contains(a + b + c + d + e + g, c),
        contains(a + b + c + d + e + g, d),
        contains(a + b + c + d + e + g, g),
{
    let s = a + b + c + d + e + g;
    assert(s =~= (a + b) + c + (d + e + g));
    lemma_contains_middle(a + b, c, d + e + g);
    assert(s =~= (a + b + c) + d + (e + g));
    lemma_contains_middle(a + b + c, d, e + g);
    assert(s =~= (a + b + c + d + e) + g + Seq::<char>::empty());
    lemma_contains_middle(a + b + c + d + e, g, Seq::<char>::empty());
}

/// Changing the first piece of a text changes nothing after it.
proof fn lemma_swap_first(
    a2: Seq<char>,
    a: Seq<char>,
    b: Seq<char>,
    c: Seq<char>,
    d: Seq<char>,
    e: Seq<char>,
    g: Seq<char>,
)
    ensures
        a2 + b + c + d + e + g == a2 + (a + b + c + d + e + g).skip(a.len() as int),
{
    assert((a + b + c + d + e + g).skip(a.len() as int) =~= b + c + d + e + g);
    assert(a2 + b + c + d + e + g =~= a2 + (b + c + d + e + g));
}

} // verus!

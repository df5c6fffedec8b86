//! WebVTT to SubRip conversion and the merging of several SubRip documents
//! into one consecutively numbered document.

use vstd::prelude::*;
use crate::error::AppError;
use crate::text::{
    append_all, begins_with, chars_of, contains, copy_range, dec, find_at_or_after, find_from, has_substring,
    join, join_with, lemma_find_from, lines, lines_of, push_decimal_wide, split, split_on, starts_with,
    string_of, trim, trimmed, views, is_digit, digits_value, all_digits, lemma_digits_value_prefix,
};

verus! {

broadcast use vstd::string::group_string_axioms;

/// Where the tag that opens at `s[0]` closes: the position of the first `>`
/// after it, when at least one other character stands between `<` and `>`.
pub open spec fn tag_close(s: Seq<char>) -> Option<int> {
    if s.len() > 0 && s[0] == '<' {
        match find_from(s, seq!['>'], 1) {
            Some(j) => if j >= 2 {
                Some(j)
            } else {
                None
            },
            None => None,
        }
    } else {
        None
    }
}

/// `s` with every tag `<...>` (pattern `<[^>]+>`) removed, tags taken
/// leftmost first and without overlap.
pub open spec fn strip_tags(s: Seq<char>) -> Seq<char>
    decreases s.len(),
{
    if s.len() == 0 {
        s
    } else {
        match tag_close(s) {
            Some(j) => {
                proof {
                    lemma_find_from(s, seq!['>'], 1);
                }
                strip_tags(s.skip(j + 1))
            },
            None => seq![s[0]] + strip_tags(s.skip(1)),
        }
    }
}

/// Calls `regex::Regex::replace_all` with the pattern `<[^>]+>` and an empty
/// replacement. The crate replaces the leftmost-first, non-overlapping matches;
/// `[^>]+` cannot pass a `>`, so each match runs from a `<` to the first `>`
/// after it with at least one character between: the contract states this as
/// `strip_tags`. The pattern is a valid constant, so the compilation succeeds.
#[verifier::external_body]
fn regex_remove_tags(line: &str) -> (r: String)
    ensures
        r@ == strip_tags(line@),
{
    regex::Regex::new(r"<[^>]+>").expect("valid regex").replace_all(line, "").into_owned()
}

/// Whether `c[i]` and `c[i + 1]` are ASCII digits.
pub open spec fn two_digits_at(c: Seq<char>, i: int) -> bool {
    is_digit(c[i]) && is_digit(c[i + 1])
}

/// Whether `c` is a timestamp `mm:ss.ttt` with two-digit minutes and seconds.
pub open spec fn is_short_timestamp(c: Seq<char>) -> bool {
    &&& c.len() == 9
    &&& two_digits_at(c, 0)
    &&& c[2] == ':'
    &&& two_digits_at(c, 3)
    &&& c[5] == '.'
    &&& two_digits_at(c, 6)
    &&& is_digit(c[8])
}

/// Whether `c` is a WebVTT cue timestamp: `mm:ss.ttt`, or hours (one or more
/// digits) and `:` before it.
pub open spec fn is_vtt_timestamp(c: Seq<char>) -> bool {
    ||| is_short_timestamp(c)
    ||| {
        &&& c.len() >= 11
        &&& c[c.len() - 10] == ':'
        &&& all_digits(c.take(c.len() - 10))
        &&& is_short_timestamp(c.skip(c.len() - 9))
    }
}

/// Where the timestamp tag that opens at `s[0]` closes, if one does.
pub open spec fn timestamp_close(s: Seq<char>) -> Option<int> {
    if s.len() > 0 && s[0] == '<' {
        match find_from(s, seq!['>'], 1) {
            Some(j) => if is_vtt_timestamp(s.subrange(1, j)) {
                Some(j)
            } else {
                None
            },
            None => None,
        }
    } else {
        None
    }
}

/// `s` with every timestamp tag `<[hh:]mm:ss.ttt>` replaced by a space,
/// tags taken leftmost first and without overlap.
pub open spec fn space_timestamps(s: Seq<char>) -> Seq<char>
    decreases s.len(),
{
    if s.len() == 0 {
        s
    } else {
        match timestamp_close(s) {
            Some(j) => {
                proof {
                    lemma_find_from(s, seq!['>'], 1);
                }
                seq![' '] + space_timestamps(s.skip(j + 1))
            },
            None => seq![s[0]] + space_timestamps(s.skip(1)),
        }
    }
}

/// Calls `regex::Regex::replace_all` with the pattern
/// `<([0-9]+:)?[0-9]{2}:[0-9]{2}\.[0-9]{3}>` and a single space as the
/// replacement. No part of the pattern but its end matches `>`, so a match
/// runs from a `<` to the first `>` after it and holds a timestamp; the crate
/// replaces the leftmost-first, non-overlapping matches: the contract states
/// this as `space_timestamps`. The pattern is a valid constant.
#[verifier::external_body]
fn regex_space_timestamps(line: &str) -> (r: String)
    ensures
        r@ == space_timestamps(line@),
{
    regex::Regex::new(r"<([0-9]+:)?[0-9]{2}:[0-9]{2}\.[0-9]{3}>").expect("valid regex").replace_all(
        line,
        " ",
    ).into_owned()
}

/// A caption line without its inline markup: timestamp tags become a space
/// (they separate the words they time), other tags are removed.
pub open spec fn clean_line(s: Seq<char>) -> Seq<char> {
    strip_tags(space_timestamps(s))
}

/// Removes the inline tags (`<c>`, `<b>`, voice and class tags) from a
/// caption line; a timestamp tag becomes a space.
pub fn strip_vtt_tags(line: &str) -> (r: String)
    ensures
        r@ == clean_line(line@),
{
    let spaced = regex_space_timestamps(line);
    regex_remove_tags(spaced.as_str())
}

/// Whether a block's first line marks it as a header, comment, style or region block.
pub open spec fn is_header_line(l: Seq<char>) -> bool {
    ||| starts_with(l, "WEBVTT"@)
    ||| starts_with(l, "NOTE"@)
    ||| starts_with(l, "STYLE"@)
    ||| starts_with(l, "REGION"@)
}

/// The first line at or after `i` that holds a `-->` timing arrow.
pub open spec fn first_timing_line(ls: Seq<Seq<char>>, i: int) -> Option<int>
    decreases ls.len() - i,
{
    if i < 0 || i >= ls.len() {
        None
    } else if contains(ls[i], "-->"@) {
        Some(i)
    } else {
        first_timing_line(ls, i + 1)
    }
}

/// A VTT timing line in SubRip form: every `.` becomes `,` and cue settings,
/// which follow two spaces, are cut off.
pub open spec fn srt_timing(l: Seq<char>) -> Seq<char> {
    let r = l.map_values(|c: char| if c == '.' { ',' } else { c });
    match find_from(r, "  "@, 0) {
        Some(j) => r.take(j),
        None => r,
    }
}

/// The cue of one trimmed VTT block, as (timing, text), or `None` when the
/// block is a header, has no timing line, or no text after it.
pub open spec fn cue_of_block(block: Seq<char>) -> Option<(Seq<char>, Seq<char>)> {
    let ls = lines(block);
    if ls.len() == 0 || is_header_line(ls[0]) {
        None
    } else {
        match first_timing_line(ls, 0) {
            None => None,
            Some(i) => {
                let text = ls.skip(i + 1);
                let clean = join(text.map_values(|l: Seq<char>| clean_line(l)), "\n"@);
                if text.len() == 0 || trim(clean).len() == 0 {
                    None
                } else {
                    Some((srt_timing(ls[i]), clean))
                }
            },
        }
    }
}

/// One numbered SubRip cue.
pub open spec fn srt_cue(n: nat, timing: Seq<char>, text: Seq<char>) -> Seq<char> {
    dec(n) + "\n"@ + timing + "\n"@ + text + "\n\n"@
}

/// The SubRip cues of the given blocks, numbered from `n`.
pub open spec fn srt_of_blocks(blocks: Seq<Seq<char>>, n: nat) -> Seq<char>
    decreases blocks.len(),
{
    if blocks.len() == 0 {
        seq![]
    } else {
        match cue_of_block(blocks[0]) {
            Some((t, x)) => srt_cue(n, t, x) + srt_of_blocks(blocks.drop_first(), n + 1),
            None => srt_of_blocks(blocks.drop_first(), n),
        }
    }
}

/// The blocks of a VTT document: its pieces between blank lines, trimmed.
pub open spec fn vtt_blocks(vtt: Seq<char>) -> Seq<Seq<char>> {
    split(vtt, "\n\n"@).map_values(|b: Seq<char>| trim(b))
}

/// The SubRip document converted from a VTT document.
pub open spec fn vtt_to_srt_text(vtt: Seq<char>) -> Seq<char> {
    srt_of_blocks(vtt_blocks(vtt), 1)
}

/// `l` with `.` replaced by `,` and cut at the first double space.
fn timing_of(l: &Vec<char>) -> (r: Vec<char>)
    ensures
        r@ == srt_timing(l@),
{
    let mut m: Vec<char> = Vec::new();
    let mut k: usize = 0;
    let ghost target = l@.map_values(|c: char| if c == '.' { ',' } else { c });
    while k < l.len()
        invariant
            k <= l.len(),
            target == l@.map_values(|c: char| if c == '.' { ',' } else { c }),
            m@ == target.take(k as int),
        decreases l.len() - k,
    {
        let c = l[k];
        m.push(if c == '.' { ',' } else { c });
        k = k + 1;
        assert(m@ =~= target.take(k as int));
    }
    assert(target.take(l.len() as int) =~= target);
    let sep = chars_of("  ");
    match find_at_or_after(&m, &sep, 0) {
        Some(j) => {
            proof {
                lemma_find_from(m@, sep@, 0);
            }
            copy_range(&m, 0, j)
        },
        None => m,
    }
}

/// Whether the line marks a header block.
fn header_line(l: &Vec<char>) -> (b: bool)
    ensures
        b == is_header_line(l@),
{
    begins_with(l, &chars_of("WEBVTT")) || begins_with(l, &chars_of("NOTE")) || begins_with(
        l,
        &chars_of("STYLE"),
    ) || begins_with(l, &chars_of("REGION"))
}

/// The cue of one trimmed VTT block.
fn cue_from_block(block: &Vec<char>) -> (r: Option<(Vec<char>, Vec<char>)>)
    ensures
        match r {
            Some((t, x)) => cue_of_block(block@) == Some((t@, x@)),
            None => cue_of_block(block@) is None,
        },
{
    let ls = lines_of(block);
    let ghost sls = lines(block@);
    assert(views(ls@).len() == ls@.len());
    if ls.len() == 0 {
        return None;
    }
    assert(ls[0]@ == sls[0]);
    if header_line(&ls[0]) {
        return None;
    }
    let arrow = chars_of("-->");
    let mut i: usize = 0;
    loop
        invariant
            i <= ls.len(),
            sls == views(ls@),
            sls.len() == ls.len(),
            sls == lines(block@),
            sls.len() > 0,
            !is_header_line(sls[0]),
            arrow@ == "-->"@,
            first_timing_line(sls, 0) == first_timing_line(sls, i as int),
        ensures
            i < ls.len(),
            first_timing_line(sls, 0) == Some(i as int),
        decreases ls.len() - i,
    {
        if i == ls.len() {
            assert(first_timing_line(sls, i as int) is None);
            assert(!is_header_line(sls[0]));
            assert(sls.len() != 0);
            assert(cue_of_block(block@) is None);
            return None;
        }
        assert(ls[i as int]@ == sls[i as int]);
        if has_substring(&ls[i], &arrow) {
            break;
        }
        i = i + 1;
    }
    assert(first_timing_line(sls, 0) == Some(i as int));
    assert(ls[i as int]@ == sls[i as int]);
    let ts = timing_of(&ls[i]);
    let ghost text = sls.skip(i + 1);
    let mut cleaned: Vec<Vec<char>> = Vec::new();
    let mut k: usize = i + 1;
    while k < ls.len()
        invariant
            i < k <= ls.len(),
            sls == views(ls@),
            text == sls.skip(i + 1),
            views(cleaned@) == text.map_values(|l: Seq<char>| clean_line(l)).take(k - i - 1),
        decreases ls.len() - k,
    {
        let line = string_of(&ls[k]);
        let stripped = strip_vtt_tags(line.as_str());
        let c = chars_of(stripped.as_str());
        proof {
            assert(ls[k as int]@ == sls[k as int]);
            assert(text[k - i - 1] == sls[k as int]);
        }
        assert(views(cleaned@.push(c)) =~= views(cleaned@).push(c@));
        cleaned.push(c);
        k = k + 1;
        assert(views(cleaned@) =~= text.map_values(|l: Seq<char>| clean_line(l)).take(
            k - i - 1,
        ));
    }
    assert(text.map_values(|l: Seq<char>| clean_line(l)).take(ls.len() - i - 1) =~= text.map_values(
        |l: Seq<char>| clean_line(l),
    ));
    if i + 1 == ls.len() {
        return None;
    }
    let clean = join_with(&cleaned, &chars_of("\n"));
    let t = trimmed(&clean);
    if t.len() == 0 {
        return None;
    }
    Some((ts, clean))
}

/// Converts a WebVTT caption document into SubRip: every block with a timing
/// line and some text becomes a cue, numbered from 1, with `,` as the
/// decimal mark, cue settings dropped, timestamp tags turned into a space and
/// other inline tags removed.
pub fn vtt_to_srt(vtt: &str) -> (srt: String)
    ensures
        srt@ == vtt_to_srt_text(vtt@),
{
    let v = chars_of(vtt);
    let sep = chars_of("\n\n");
    proof {
        reveal_strlit("\n\n");
    }
    let pieces = split_on(&v, &sep);
    let ghost blocks = vtt_blocks(vtt@);
    assert(views(pieces@).len() == pieces@.len());
    let mut out: Vec<char> = Vec::new();
    let mut index: u128 = 1;
    let mut k: usize = 0;
    assert(blocks.skip(0) =~= blocks);
    while k < pieces.len()
        invariant
            k <= pieces.len(),
            blocks.len() == pieces.len(),
            blocks == split(vtt@, "\n\n"@).map_values(|b: Seq<char>| trim(b)),
            views(pieces@) == split(vtt@, "\n\n"@),
            1 <= index <= k + 1,
            vtt_to_srt_text(vtt@) == out@ + srt_of_blocks(blocks.skip(k as int), index as nat),
        decreases pieces.len() - k,
    {
        let block = trimmed(&pieces[k]);
        assert(block@ == blocks[k as int]);
        assert(blocks.skip(k as int).drop_first() =~= blocks.skip(k + 1));
        assert(blocks.skip(k as int)[0] == blocks[k as int]);
        match cue_from_block(&block) {
            Some((t, x)) => {
                let ghost before = out@;
                push_decimal_wide(&mut out, index);
                out.push('\n');
                append_all(&mut out, &t);
                out.push('\n');
                append_all(&mut out, &x);
                out.push('\n');
                out.push('\n');
                proof {
                    reveal_strlit("\n");
                    reveal_strlit("\n\n");
                    assert(out@ =~= before + srt_cue(index as nat, t@, x@));
                }
                index = index + 1;
            },
            None => {},
        }
        k = k + 1;
    }
    assert(blocks.skip(k as int) =~= Seq::<Seq<char>>::empty());
    string_of(&out)
}


/// Whether `s` is accepted by `str::parse::<u32>`: an optional `+`, then one
/// or more ASCII digits whose value fits in 32 bits.
pub open spec fn parses_as_u32(s: Seq<char>) -> bool {
    let d = unsigned_digits(s);
    &&& d.len() > 0
    &&& all_digits(d)
    &&& digits_value(d) <= u32::MAX
}

/// `s` without the one leading `+` that an unsigned number may carry.
pub open spec fn unsigned_digits(s: Seq<char>) -> Seq<char> {
    if s.len() > 0 && s[0] == '+' {
        s.drop_first()
    } else {
        s
    }
}

/// The lines of a SubRip entry after its number, each ended by a newline.
pub open spec fn entry_lines(ls: Seq<Seq<char>>) -> Seq<char>
    decreases ls.len(),
{
    if ls.len() == 0 {
        seq![]
    } else {
        ls[0] + "\n"@ + entry_lines(ls.drop_first())
    }
}

/// The text of one trimmed SubRip block after its number, when the block has
/// a numeric first line and at least one more line.
pub open spec fn entry_of_block(block: Seq<char>) -> Option<Seq<char>> {
    let ls = lines(block);
    if block.len() == 0 || ls.len() < 2 || !parses_as_u32(ls[0]) {
        None
    } else {
        Some(entry_lines(ls.drop_first()))
    }
}

/// The entries of the given blocks, renumbered from `n`.
pub open spec fn renumbered(blocks: Seq<Seq<char>>, n: nat) -> Seq<char>
    decreases blocks.len(),
{
    if blocks.len() == 0 {
        seq![]
    } else {
        match entry_of_block(trim(blocks[0])) {
            Some(x) => dec(n) + "\n"@ + x + "\n"@ + renumbered(blocks.drop_first(), n + 1),
            None => renumbered(blocks.drop_first(), n),
        }
    }
}

/// All blocks of the given SubRip documents, in order.
pub open spec fn srt_blocks(captions: Seq<Seq<char>>) -> Seq<Seq<char>> {
    captions.map_values(|c: Seq<char>| split(c, "\n\n"@)).flatten()
}

/// The merged SubRip document.
pub open spec fn merged_srt(captions: Seq<Seq<char>>) -> Seq<char> {
    trim(renumbered(srt_blocks(captions), 1))
}

/// Whether the line parses as a 32-bit unsigned number.
fn parses_u32(s: &Vec<char>) -> (b: bool)
    ensures
        b == parses_as_u32(s@),
{
    let start: usize = if s.len() > 0 && s[0] == '+' {
        1
    } else {
        0
    };
    let ghost d = unsigned_digits(s@);
    assert(d =~= s@.skip(start as int));
    if start == s.len() {
        return false;
    }
    let mut value: u64 = 0;
    let mut k: usize = start;
    while k < s.len()
        invariant
            start <= k <= s.len(),
            d =~= s@.skip(start as int),
            d == unsigned_digits(s@),
            value as nat == digits_value(d.take(k - start)),
            value <= u32::MAX,
            forall|i: int| 0 <= i < k - start ==> is_digit(#[trigger] d[i]),
        decreases s.len() - k,
    {
        let c = s[k];
        assert(d[k - start] == c);
        if !('0' <= c && c <= '9') {
            assert(!is_digit(d[k - start]));
            assert(!all_digits(d));
            assert(!parses_as_u32(s@));
            return false;
        }
        let digit = (c as u32 - 48) as u64;
        value = value * 10 + digit;
        assert(d.take(k + 1 - start).drop_last() =~= d.take(k - start));
        k = k + 1;
        if value > 0xffff_ffff {
            proof {
                lemma_digits_value_prefix(d, k - start);
                assert(digits_value(d) > u32::MAX);
                assert(!parses_as_u32(s@));
            }
            return false;
        }
    }
    assert(d.take(k - start) =~= d);
    assert(parses_as_u32(s@));
    true
}

/// Merges SubRip documents into one: every entry with a numeric first line
/// and some text is kept, in order, renumbered from 1; other blocks are
/// dropped, and the result is trimmed.
pub fn merge_srt_captions(captions: Vec<String>) -> (merged: String)
    ensures
        merged@ == merged_srt(captions@.map_values(|c: String| c@)),
{
    let ghost caps = captions@.map_values(|c: String| c@);
    let ghost all = srt_blocks(caps);
    let sep = chars_of("\n\n");
    let mut out: Vec<char> = Vec::new();
    let mut index: u128 = 1;
    let mut c: usize = 0;
    let ghost mut consumed: nat = 0;
    proof {
        lemma_flatten_split(caps.map_values(|c: Seq<char>| split(c, "\n\n"@)), 0);
        assert(all.skip(0) =~= all);
        assert(caps.skip(0) =~= caps);
    }
    while c < captions.len()
        invariant
            c <= captions.len(),
            caps == captions@.map_values(|c: String| c@),
            all == srt_blocks(caps),
            sep@ == "\n\n"@,
            consumed <= all.len(),
            all.skip(consumed as int) == caps.skip(c as int).map_values(
                |c: Seq<char>| split(c, "\n\n"@),
            ).flatten(),
            1 <= index <= consumed + 1,
            index <= c * 0x1_0000_0000_0000_0000 + 1,
            renumbered(all, 1) == out@ + renumbered(all.skip(consumed as int), index as nat),
        decreases captions.len() - c,
    {
        let v = chars_of(captions[c].as_str());
        proof {
            reveal_strlit("\n\n");
        }
        let pieces = split_on(&v, &sep);
        assert(pieces.len() <= 0x1_0000_0000_0000_0000);
        let ghost bl = split(caps[c as int], "\n\n"@);
        let ghost rest = caps.skip(c + 1).map_values(|c: Seq<char>| split(c, "\n\n"@)).flatten();
        proof {
            let ms = caps.skip(c as int).map_values(|c: Seq<char>| split(c, "\n\n"@));
            assert(ms.len() > 0);
            assert(ms.first() == bl);
            assert(ms.drop_first() =~= caps.skip(c + 1).map_values(
                |c: Seq<char>| split(c, "\n\n"@),
            ));
            assert(all.skip(consumed as int) == bl + rest);
        }
        assert(views(pieces@).len() == pieces@.len());
        let mut b: usize = 0;
        while b < pieces.len()
            invariant
                b <= pieces.len(),
                views(pieces@) == bl,
                consumed + (bl.len() - b) <= all.len(),
                all.skip(consumed as int) == bl.skip(b as int) + rest,
                1 <= index <= consumed + 1,
                c < captions.len(),
                pieces.len() <= 0x1_0000_0000_0000_0000,
                index <= c * 0x1_0000_0000_0000_0000 + b + 1,
                renumbered(all, 1) == out@ + renumbered(all.skip(consumed as int), index as nat),
            decreases pieces.len() - b,
        {
            let block = trimmed(&pieces[b]);
            let ghost remaining = all.skip(consumed as int);
            proof {
                assert(remaining[0] == pieces[b as int]@);
                assert(remaining.drop_first() =~= bl.skip(b + 1) + rest);
                assert(all.skip(consumed + 1int) =~= remaining.drop_first());
            }
            match entry_from_block(&block) {
                Some(x) => {
                    let ghost before = out@;
                    push_decimal_wide(&mut out, index);
                    out.push('\n');
                    append_all(&mut out, &x);
                    out.push('\n');
                    proof {
                        reveal_strlit("\n");
                        assert(out@ =~= before + dec(index as nat) + "\n"@ + x@ + "\n"@);
                    }
                    index = index + 1;
                },
                None => {},
            }
            proof {
                consumed = consumed + 1;
            }
            b = b + 1;
        }
        proof {
            assert(bl.skip(b as int) =~= Seq::<Seq<char>>::empty());
            assert(all.skip(consumed as int) =~= rest);
        }
        c = c + 1;
    }
    proof {
        assert(caps.skip(c as int) =~= Seq::<Seq<char>>::empty());
        assert(caps.skip(c as int).map_values(|c: Seq<char>| split(c, "\n\n"@)) =~= Seq::<
            Seq<Seq<char>>,
        >::empty());
    }
    let t = trimmed(&out);
    string_of(&t)
}

/// The flattening of a suffix is a suffix of the flattening.
proof fn lemma_flatten_split(ss: Seq<Seq<Seq<char>>>, k: int)
    requires
        0 <= k <= ss.len(),
    ensures
        ss.flatten() == ss.take(k).flatten() + ss.skip(k).flatten(),
    decreases k,
{
    if k == 0 {
        assert(ss.take(0) =~= Seq::<Seq<Seq<char>>>::empty());
        assert(ss.skip(0) =~= ss);
    } else {
        lemma_flatten_split(ss.drop_first(), k - 1);
        assert(ss.drop_first().take(k - 1) =~= ss.take(k).drop_first());
        assert(ss.drop_first().skip(k - 1) =~= ss.skip(k));
    }
}

/// The entry of one trimmed SubRip block.
fn entry_from_block(block: &Vec<char>) -> (r: Option<Vec<char>>)
    ensures
        match r {
            Some(x) => entry_of_block(block@) == Some(x@),
            None => entry_of_block(block@) is None,
        },
{
    if block.len() == 0 {
        return None;
    }
    let ls = lines_of(block);
    assert(views(ls@).len() == ls@.len());
    if ls.len() < 2 {
        return None;
    }
    assert(ls[0]@ == lines(block@)[0]);
    if !parses_u32(&ls[0]) {
        return None;
    }
    let ghost tail = lines(block@).drop_first();
    let mut x: Vec<char> = Vec::new();
    let mut k: usize = 1;
    assert(tail.skip(0) =~= tail);
    while k < ls.len()
        invariant
            1 <= k <= ls.len(),
            views(ls@) == lines(block@),
            tail == lines(block@).drop_first(),
            x@ + entry_lines(tail.skip(k - 1)) == entry_lines(tail),
        decreases ls.len() - k,
    {
        let ghost before = x@;
        append_all(&mut x, &ls[k]);
        x.push('\n');
        proof {
            reveal_strlit("\n");
            let r = tail.skip(k - 1);
            assert(r[0] == ls[k as int]@);
            assert(r.drop_first() =~= tail.skip(k as int));
            assert(x@ =~= before + (r[0] + "\n"@));
        }
        k = k + 1;
    }
    assert(tail.skip(k - 1) =~= Seq::<Seq<char>>::empty());
    Some(x)
}


/// The answer to a captions request from the SubRip documents gathered for
/// it: `NoCaptions` when none was found, else their merge.
pub fn captions_answer(captions: Vec<String>) -> (r: Result<String, AppError>)
    ensures
        captions@.len() == 0 ==> (r matches Err(e) && e is NoCaptions),
        captions@.len() > 0 ==> (r matches Ok(srt) && srt@ == merged_srt(
            captions@.map_values(|c: String| c@),
        )),
{
    if captions.len() == 0 {
        return Err(AppError::NoCaptions);
    }
    Ok(merge_srt_captions(captions))
}

} // verus!

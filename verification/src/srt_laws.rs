//! Laws of merging SubRip documents: a merged document merges back into
//! itself, and a converted one into itself without its trailing blank line.

use vstd::prelude::*;
use crate::captions::{
    cue_of_block, entry_lines, entry_of_block, merged_srt, parses_as_u32, renumbered, srt_blocks,
    srt_cue, srt_of_blocks, unsigned_digits, vtt_blocks, vtt_to_srt_text,
};
use crate::text::{
    all_digits, dec, digit_char, digits_value, find_from, is_digit, is_ws, lemma_find_from, lines,
    lines_from, occurs_at, split, split_from, strip_cr, trim, trim_end, trim_start,
};

verus! {

/// No line break directly follows another.
pub open spec fn no_blank_line(s: Seq<char>) -> bool {
    forall|i: int| 0 <= i < s.len() - 1 ==> (#[trigger] s[i]) != '\n' || s[i + 1] != '\n'
}

/// No carriage return occurs.
pub open spec fn no_cr(s: Seq<char>) -> bool {
    forall|i: int| 0 <= i < s.len() ==> (#[trigger] s[i]) != '\r'
}

/// A piece of text without blank lines or carriage returns.
spec fn plain(s: Seq<char>) -> bool {
    no_blank_line(s) && no_cr(s)
}

spec fn nl() -> Seq<char> {
    seq!['\n']
}

spec fn nl2() -> Seq<char> {
    seq!['\n', '\n']
}

proof fn lemma_literals()
    ensures
        "\n"@ == nl(),
        "\n\n"@ == nl2(),
{
    reveal_strlit("\n");
    reveal_strlit("\n\n");
    assert("\n"@ =~= nl());
    assert("\n\n"@ =~= nl2());
}

proof fn lemma_plain_sub(s: Seq<char>, a: int, b: int)
    requires
        plain(s),
        0 <= a <= b <= s.len(),
    ensures
        plain(s.subrange(a, b)),
{
    let t = s.subrange(a, b);
    assert forall|i: int| 0 <= i < t.len() - 1 implies (#[trigger] t[i]) != '\n' || t[i + 1] != '\n' by {
        assert(t[i] == s[a + i]);
        assert(t[i + 1] == s[a + i + 1]);
    }
    assert forall|i: int| 0 <= i < t.len() implies (#[trigger] t[i]) != '\r' by {
        assert(t[i] == s[a + i]);
    }
}

/// A digit is no line break, carriage return, plus sign or white space.
proof fn lemma_digit_char_kind(c: char)
    requires
        is_digit(c),
    ensures
        c != '\n',
        c != '\r',
        c != '+',
        !is_ws(c),
{
    assert('0' as u32 == 48);
    assert('9' as u32 == 57);
}

proof fn lemma_dec(n: nat)
    ensures
        dec(n).len() > 0,
        all_digits(dec(n)),
        digits_value(dec(n)) == n,
    decreases n,
{
    if n < 10 {
        assert((48 + n) as char as nat == 48 + n);
        assert(dec(n).drop_last() =~= Seq::<char>::empty());
        assert(dec(n).last() == digit_char(n));
        assert(digits_value(dec(n)) == digits_value(Seq::<char>::empty()) * 10 + n);
        assert('0' as u32 == 48);
        assert('9' as u32 == 57);
    } else {
        lemma_dec(n / 10);
        let d = n % 10;
        assert((48 + d) as char as nat == 48 + d);
        assert('0' as u32 == 48);
        assert('9' as u32 == 57);
        let s = dec(n);
        assert(s.drop_last() =~= dec(n / 10));
        assert forall|i: int| 0 <= i < s.len() implies is_digit(#[trigger] s[i]) by {
            if i < s.len() - 1 {
                assert(s[i] == dec(n / 10)[i]);
            }
        }
        assert(s.last() == digit_char(d));
        assert(digits_value(s) == digits_value(dec(n / 10)) * 10 + d);
        assert((n / 10) * 10 + d == n);
    }
}

/// Shifting a search past a prefix.
proof fn lemma_find_shift(a: Seq<char>, b: Seq<char>, p: Seq<char>, i: int)
    requires
        0 <= i,
    ensures
        match find_from(b, p, i) {
            Some(k) => find_from(a + b, p, a.len() + i) == Some(a.len() + k),
            None => find_from(a + b, p, a.len() + i) is None,
        },
    decreases b.len() - i,
{
    let s = a + b;
    if i + p.len() > b.len() {
    } else {
        assert(s.subrange(a.len() + i, a.len() + i + p.len()) =~= b.subrange(i, i + p.len()));
        if occurs_at(b, p, i) {
        } else if i >= b.len() {
        } else {
            lemma_find_shift(a, b, p, i + 1);
        }
    }
}

proof fn lemma_lines_shift(a: Seq<char>, b: Seq<char>, i: int)
    requires
        0 <= i,
    ensures
        lines_from(a + b, a.len() + i) == lines_from(b, i),
    decreases b.len() - i,
{
    let s = a + b;
    if i >= b.len() {
    } else {
        lemma_find_shift(a, b, nl(), i);
        lemma_find_from(b, nl(), i);
        match find_from(b, nl(), i) {
            Some(k) => {
                assert(s.subrange(a.len() + i, a.len() + k) =~= b.subrange(i, k));
                lemma_lines_shift(a, b, k + 1);
                assert(a.len() + k + 1 == a.len() + (k + 1));
            },
            None => {
                assert(s.subrange(a.len() + i, s.len() as int) =~= b.subrange(i, b.len() as int));
            },
        }
    }
}

proof fn lemma_split_shift(a: Seq<char>, b: Seq<char>, p: Seq<char>, i: int)
    requires
        0 <= i,
        p.len() > 0,
    ensures
        split_from(a + b, p, a.len() + i) == split_from(b, p, i),
    decreases b.len() - i,
{
    let s = a + b;
    if i > b.len() {
    } else {
        lemma_find_shift(a, b, p, i);
        lemma_find_from(b, p, i);
        match find_from(b, p, i) {
            Some(k) => {
                assert(s.subrange(a.len() + i, a.len() + k) =~= b.subrange(i, k));
                lemma_split_shift(a, b, p, k + p.len());
                assert(a.len() + k + p.len() == a.len() + (k + p.len()));
            },
            None => {
                assert(s.subrange(a.len() + i, s.len() as int) =~= b.subrange(i, b.len() as int));
            },
        }
    }
}

/// The first occurrence, given where it is.
proof fn lemma_find_first(s: Seq<char>, p: Seq<char>, i: int, d: int)
    requires
        0 <= i <= d,
        forall|k: int| i <= k < d ==> !occurs_at(s, p, k),
        occurs_at(s, p, d),
    ensures
        find_from(s, p, i) == Some(d),
    decreases d - i,
{
    if i < d {
        lemma_find_first(s, p, i + 1, d);
    }
}


/// `trim_end` keeps a start of the text, ending in no white space.
proof fn lemma_trim_end(s: Seq<char>)
    ensures
        trim_end(s).len() <= s.len(),
        trim_end(s) == s.take(trim_end(s).len() as int),
        trim_end(s).len() > 0 ==> !is_ws(trim_end(s).last()),
    decreases s.len(),
{
    if s.len() > 0 && is_ws(s.last()) {
        lemma_trim_end(s.drop_last());
        let t = trim_end(s.drop_last());
        assert(s.drop_last().take(t.len() as int) =~= s.take(t.len() as int));
    } else {
        assert(s.take(s.len() as int) =~= s);
    }
}

/// `trim_start` keeps an end of the text, starting with no white space.
proof fn lemma_trim_start(s: Seq<char>)
    ensures
        trim_start(s).len() <= s.len(),
        trim_start(s) == s.skip(s.len() - trim_start(s).len()),
        trim_start(s).len() > 0 ==> !is_ws(trim_start(s)[0]),
    decreases s.len(),
{
    if s.len() > 0 && is_ws(s[0]) {
        lemma_trim_start(s.drop_first());
        let t = trim_start(s.drop_first());
        assert(s.drop_first().skip(s.len() - 1 - t.len()) =~= s.skip(s.len() - t.len()));
    } else {
        assert(s.skip(0) =~= s);
    }
}

/// A trimmed text is part of the text and, when not empty, starts and ends
/// with no white space.
proof fn lemma_trim(s: Seq<char>)
    ensures
        plain(s) ==> plain(trim(s)),
        trim(s).len() > 0 ==> !is_ws(trim(s)[0]) && !is_ws(trim(s).last()),
{
    lemma_trim_start(s);
    let a = trim_start(s);
    lemma_trim_end(a);
    let t = trim_end(a);
    if plain(s) {
        lemma_plain_sub(s, s.len() - a.len(), s.len() as int);
        assert(a =~= s.subrange(s.len() - a.len(), s.len() as int));
        lemma_plain_sub(a, 0, t.len() as int);
        assert(t =~= a.subrange(0, t.len() as int));
    }
    if t.len() > 0 {
        assert(t[0] == a[0]);
    }
}

/// A text that starts and ends with no white space is its own trim.
proof fn lemma_trim_id(s: Seq<char>)
    requires
        s.len() > 0,
        !is_ws(s[0]),
        !is_ws(s.last()),
    ensures
        trim(s) == s,
{
}

/// Trailing line breaks go with the trim.
proof fn lemma_trim_breaks(s: Seq<char>)
    requires
        s.len() > 0,
        !is_ws(s[0]),
        !is_ws(s.last()),
    ensures
        trim(s + nl2()) == s,
{
    let t = s + nl2();
    assert(is_ws('\n')) by {
        assert('\n' as u32 == 0x0A);
    }
    assert(t[0] == s[0]);
    assert(trim_start(t) == t);
    assert(t.drop_last() =~= s + nl());
    assert((s + nl()).drop_last() =~= s);
    assert(trim_end(t) == trim_end(s + nl()));
    assert(trim_end(s + nl()) == trim_end(s));
}

/// The pieces of a split hold no occurrence of the separator "\n\n", and no
/// carriage return when the text holds none.
proof fn lemma_split_pieces(s: Seq<char>, i: int)
    requires
        0 <= i,
        no_cr(s),
    ensures
        forall|k: int| 0 <= k < split_from(s, nl2(), i).len() ==> plain(#[trigger] split_from(s, nl2(), i)[k]),
    decreases s.len() - i,
{
    let p = nl2();
    if i > s.len() {
    } else {
        lemma_find_from(s, p, i);
        let r = split_from(s, p, i);
        let e = match find_from(s, p, i) {
            Some(j) => j,
            None => s.len() as int,
        };
        let piece = s.subrange(i, e);
        assert(no_cr(s) && no_cr(piece)) by {
            assert forall|t: int| 0 <= t < piece.len() implies (#[trigger] piece[t]) != '\r' by {
                assert(piece[t] == s[i + t]);
            }
        }
        assert forall|t: int| 0 <= t < piece.len() - 1 implies (#[trigger] piece[t]) != '\n' || piece[t + 1] != '\n' by {
            if piece[t] == '\n' && piece[t + 1] == '\n' {
                assert(piece[t] == s[i + t]);
                assert(piece[t + 1] == s[i + t + 1]);
                assert(s.subrange(i + t, i + t + 2) =~= p);
                assert(occurs_at(s, p, i + t));
            }
        }
        assert(r[0] == piece);
        match find_from(s, p, i) {
            Some(j) => {
                lemma_split_pieces(s, j + 2);
                assert forall|k: int| 0 <= k < r.len() implies plain(#[trigger] r[k]) by {
                    if k > 0 {
                        assert(r[k] == split_from(s, p, j + 2)[k - 1]);
                    }
                }
            },
            None => {},
        }
    }
}

/// Every block of SubRip documents without carriage returns is plain.
proof fn lemma_blocks_plain(captions: Seq<Seq<char>>)
    requires
        forall|c: int| 0 <= c < captions.len() ==> no_cr(#[trigger] captions[c]),
    ensures
        forall|k: int| 0 <= k < srt_blocks(captions).len() ==> plain(#[trigger] srt_blocks(captions)[k]),
    decreases captions.len(),
{
    lemma_literals();
    if captions.len() > 0 {
        let rest = captions.drop_first();
        assert forall|c: int| 0 <= c < rest.len() implies no_cr(#[trigger] rest[c]) by {
            assert(rest[c] == captions[c + 1]);
        }
        lemma_blocks_plain(rest);
        let ms = captions.map_values(|c: Seq<char>| split(c, "\n\n"@));
        assert(ms.drop_first() =~= rest.map_values(|c: Seq<char>| split(c, "\n\n"@)));
        let first = split(captions[0], nl2());
        assert(ms.first() == first);
        assert(no_cr(captions[0]));
        lemma_split_pieces(captions[0], 0);
        let all = srt_blocks(captions);
        assert(all == first + srt_blocks(rest));
        assert forall|k: int| 0 <= k < all.len() implies plain(#[trigger] all[k]) by {
            if k < first.len() {
                assert(all[k] == first[k]);
            } else {
                assert(all[k] == srt_blocks(rest)[k - first.len()]);
            }
        }
    }
}


/// The entry lines of the lines of a text without carriage returns give the
/// text back, with a final line break.
proof fn lemma_entry_lines_of(j: Seq<char>, i: int)
    requires
        no_cr(j),
        j.len() > 0,
        j.last() != '\n',
        0 <= i < j.len(),
    ensures
        entry_lines(lines_from(j, i)) == j.skip(i) + nl(),
    decreases j.len() - i,
{
    lemma_literals();
    lemma_find_from(j, nl(), i);
    let ls = lines_from(j, i);
    match find_from(j, nl(), i) {
        Some(f) => {
            assert(j.subrange(f, f + 1) =~= nl());
            assert(j.subrange(f, f + 1)[0] == j[f]);
            assert(nl()[0] == '\n');
            assert(j[f] == '\n');
            assert(f < j.len() - 1);
            let piece = j.subrange(i, f);
            if piece.len() > 0 {
                assert(piece.last() == j[f - 1]);
            }
            assert(strip_cr(piece) == piece);
            lemma_entry_lines_of(j, f + 1);
            assert(ls == seq![piece] + lines_from(j, f + 1));
            assert(ls.drop_first() =~= lines_from(j, f + 1));
            assert(entry_lines(ls) == piece + "\n"@ + entry_lines(ls.drop_first()));
            assert(piece + nl() + (j.skip(f + 1) + nl()) =~= j.skip(i) + nl());
        },
        None => {
            let piece = j.subrange(i, j.len() as int);
            assert(piece.last() == j.last());
            assert(strip_cr(piece) == piece);
            assert(ls == seq![piece]);
            assert(ls.drop_first() =~= Seq::<Seq<char>>::empty());
            assert(entry_lines(ls) == piece + "\n"@ + entry_lines(ls.drop_first()));
            assert(piece + nl() + Seq::<char>::empty() =~= j.skip(i) + nl());
        },
    }
}

/// The lines of a numbered entry: its number, then the lines of its text.
proof fn lemma_lines_numbered(m: nat, j: Seq<char>)
    ensures
        lines(dec(m) + nl() + j) == seq![dec(m)] + lines(j),
{
    let d = dec(m);
    let e = d + nl() + j;
    lemma_dec(m);
    assert forall|k: int| 0 <= k < d.len() implies !occurs_at(e, nl(), k) by {
        assert(e[k] == d[k]);
        assert(is_digit(d[k]));
        lemma_digit_char_kind(d[k]);
        if occurs_at(e, nl(), k) {
            assert(e.subrange(k, k + 1)[0] == e[k]);
        }
    }
    assert(e.subrange(d.len() as int, d.len() + 1int) =~= nl());
    lemma_find_first(e, nl(), 0, d.len() as int);
    assert(e.subrange(0, d.len() as int) =~= d);
    assert(is_digit(d.last()));
    lemma_digit_char_kind(d.last());
    assert(strip_cr(d) == d);
    assert(e =~= (d + nl()) + j);
    lemma_lines_shift(d + nl(), j, 0);
    assert(lines(e) == seq![d] + lines_from(e, d.len() + 1int));
}

/// A block in the form the merge writes it: a number and a line break, then
/// a text that is kept as it is when the block is read back.
spec fn entry_ok(e: Seq<char>, m: nat) -> bool {
    let k = dec(m).len() + 1;
    &&& e.len() > k
    &&& e.take(k as int) == dec(m) + nl()
    &&& trim(e) == e
    &&& entry_of_block(e) == Some(e.skip(k as int) + nl())
    &&& no_blank_line(e)
    &&& !is_ws(e[0])
    &&& !is_ws(e.last())
}

/// Reading back a merged entry: a plain block whose entry is `x` is written
/// as a block that reads back as `x` again under any number that fits.
proof fn lemma_entry(b: Seq<char>, m: nat)
    requires
        plain(b),
        entry_of_block(trim(b)) is Some,
        m <= u32::MAX,
    ensures
        ({
            let x = entry_of_block(trim(b))->Some_0;
            &&& x.len() > 0
            &&& x.last() == '\n'
            &&& entry_ok(dec(m) + "\n"@ + x.drop_last(), m)
        }),
{
    lemma_literals();
    let t = trim(b);
    lemma_trim(b);
    assert(plain(t));
    assert(t.len() > 0);
    assert(is_ws('\n') && is_ws('\r')) by {
        assert('\n' as u32 == 0x0A);
        assert('\r' as u32 == 0x0D);
    }
    let ls = lines(t);
    assert(ls.len() >= 2);
    lemma_find_from(t, nl(), 0);
    let j = match find_from(t, nl(), 0) {
        Some(j) => j,
        None => {
            assert(ls == seq![t.subrange(0, t.len() as int)]);
            0
        },
    };
    assert(find_from(t, nl(), 0) == Some(j));
    assert(t.subrange(j, j + 1) =~= nl());
    assert(t.subrange(j, j + 1)[0] == t[j]);
    assert(nl()[0] == '\n');
    assert(t[j] == '\n');
    assert(j < t.len() - 1);
    let jj = t.skip(j + 1);
    assert(t =~= t.take(j + 1) + jj);
    lemma_lines_shift(t.take(j + 1), jj, 0);
    assert(ls.drop_first() =~= lines_from(t, j + 1));
    assert(ls.drop_first() == lines(jj));
    lemma_plain_sub(t, j + 1, t.len() as int);
    assert(jj =~= t.subrange(j + 1, t.len() as int));
    assert(jj.last() == t.last());
    lemma_entry_lines_of(jj, 0);
    assert(jj.skip(0) =~= jj);
    let x = entry_of_block(t)->Some_0;
    assert(x == jj + nl());
    assert(x.drop_last() =~= jj);
    assert(jj[0] == t[j + 1]);
    assert(jj[0] != '\n');
    lemma_entry_text(jj, m);
}

/// A number, a line break and a plain text that starts with no line break
/// and ends with no white space form a block that reads back as the text.
proof fn lemma_entry_text(jj: Seq<char>, m: nat)
    requires
        plain(jj),
        jj.len() > 0,
        jj[0] != '\n',
        !is_ws(jj.last()),
        m <= u32::MAX,
    ensures
        entry_ok(dec(m) + "\n"@ + jj, m),
{
    lemma_literals();
    assert(is_ws('\n') && is_ws('\r')) by {
        assert('\n' as u32 == 0x0A);
        assert('\r' as u32 == 0x0D);
    }
    assert(jj.last() != '\n');
    lemma_entry_lines_of(jj, 0);
    assert(jj.skip(0) =~= jj);
    // the written entry
    let d = dec(m);
    lemma_dec(m);
    let e = d + nl() + jj;
    let k = d.len() + 1;
    assert(e.take(k as int) =~= d + nl());
    assert(e.skip(k as int) =~= jj);
    assert(is_digit(d[0]));
    lemma_digit_char_kind(d[0]);
    assert(e[0] == d[0]);
    assert(e.last() == jj.last());
    lemma_trim_id(e);
    // no blank line: the number holds none, and the text starts with none
    assert forall|i: int| 0 <= i < e.len() - 1 implies (#[trigger] e[i]) != '\n' || e[i + 1] != '\n' by {
        if i < d.len() {
            assert(e[i] == d[i]);
            assert(is_digit(d[i]));
            lemma_digit_char_kind(d[i]);
        } else if i == d.len() {
            assert(e[i + 1] == jj[0]);
        } else {
            assert(e[i] == jj[i - k]);
            assert(e[i + 1] == jj[i + 1 - k]);
        }
    }
    // reading it back
    lemma_lines_numbered(m, jj);
    let el = lines(e);
    assert(el.len() >= 2) by {
        assert(lines(jj).len() >= 1);
    }
    assert(el[0] == d);
    assert(unsigned_digits(d) == d);
    assert(parses_as_u32(d));
    assert(el.drop_first() =~= lines(jj));
    assert(entry_of_block(e) == Some(entry_lines(lines(jj))));
    assert(lines(jj) == lines_from(jj, 0));
}


/// The entries that merging the given blocks writes, numbered from `n`, each
/// without the blank line that follows it.
pub open spec fn entry_texts(blocks: Seq<Seq<char>>, n: nat) -> Seq<Seq<char>>
    decreases blocks.len(),
{
    if blocks.len() == 0 {
        seq![]
    } else {
        match entry_of_block(trim(blocks[0])) {
            Some(x) => seq![dec(n) + "\n"@ + x.drop_last()] + entry_texts(blocks.drop_first(), n + 1),
            None => entry_texts(blocks.drop_first(), n),
        }
    }
}

/// The entries, each followed by a blank line.
spec fn pieces(es: Seq<Seq<char>>) -> Seq<char>
    decreases es.len(),
{
    if es.len() == 0 {
        seq![]
    } else {
        es[0] + nl2() + pieces(es.drop_first())
    }
}

/// The entries with a blank line between each two.
spec fn joined(es: Seq<Seq<char>>) -> Seq<char>
    decreases es.len(),
{
    if es.len() == 0 {
        seq![]
    } else if es.len() == 1 {
        es[0]
    } else {
        es[0] + nl2() + joined(es.drop_first())
    }
}

proof fn lemma_pieces_joined(es: Seq<Seq<char>>)
    requires
        es.len() > 0,
        forall|i: int| 0 <= i < es.len() ==> (#[trigger] es[i]).len() > 0,
    ensures
        pieces(es) == joined(es) + nl2(),
        joined(es).len() > 0,
        joined(es)[0] == es[0][0],
        joined(es).last() == es.last().last(),
    decreases es.len(),
{
    let rest = es.drop_first();
    if es.len() == 1 {
        assert(rest =~= Seq::<Seq<char>>::empty());
        assert(pieces(rest) =~= Seq::<char>::empty());
        assert(pieces(es) =~= es[0] + nl2());
    } else {
        assert forall|i: int| 0 <= i < rest.len() implies (#[trigger] rest[i]).len() > 0 by {
            assert(rest[i] == es[i + 1]);
        }
        lemma_pieces_joined(rest);
        assert(pieces(es) =~= joined(es) + nl2());
        assert(rest.last() == es.last());
    }
}

/// Merging plain blocks writes their entries, each followed by a blank
/// line, and each entry reads back as itself under its number.
proof fn lemma_first_pass(blocks: Seq<Seq<char>>, n: nat)
    requires
        forall|k: int| 0 <= k < blocks.len() ==> plain(#[trigger] blocks[k]),
        n + entry_texts(blocks, n).len() <= u32::MAX + 1,
    ensures
        renumbered(blocks, n) == pieces(entry_texts(blocks, n)),
        forall|i: int| 0 <= i < entry_texts(blocks, n).len() ==> entry_ok(#[trigger] entry_texts(blocks, n)[i], (n + i) as nat),
    decreases blocks.len(),
{
    lemma_literals();
    if blocks.len() > 0 {
        let rest = blocks.drop_first();
        assert forall|k: int| 0 <= k < rest.len() implies plain(#[trigger] rest[k]) by {
            assert(rest[k] == blocks[k + 1]);
        }
        assert(plain(blocks[0]));
        match entry_of_block(trim(blocks[0])) {
            Some(x) => {
                let es = entry_texts(blocks, n);
                let rs = entry_texts(rest, n + 1);
                assert(es == seq![dec(n) + "\n"@ + x.drop_last()] + rs);
                lemma_first_pass(rest, n + 1);
                lemma_entry(blocks[0], n);
                let e = dec(n) + nl() + x.drop_last();
                assert(x =~= x.drop_last() + nl());
                assert(dec(n) + "\n"@ + x + "\n"@ =~= e + nl2());
                assert(es.drop_first() =~= rs);
                assert(renumbered(blocks, n) == dec(n) + "\n"@ + x + "\n"@ + renumbered(rest, n + 1));
                assert(pieces(es) == es[0] + nl2() + pieces(es.drop_first()));
                assert forall|i: int| 0 <= i < es.len() implies entry_ok(#[trigger] es[i], (n + i) as nat) by {
                    if i > 0 {
                        assert(es[i] == rs[i - 1]);
                        assert((n + 1 + (i - 1)) as nat == (n + i) as nat);
                    }
                }
            },
            None => {
                lemma_first_pass(rest, n);
            },
        }
    }
}

/// Merging blocks that are merged entries writes them again.
proof fn lemma_second_pass(es: Seq<Seq<char>>, n: nat)
    requires
        forall|i: int| 0 <= i < es.len() ==> entry_ok(#[trigger] es[i], (n + i) as nat),
    ensures
        renumbered(es, n) == pieces(es),
    decreases es.len(),
{
    lemma_literals();
    if es.len() > 0 {
        let rest = es.drop_first();
        assert forall|i: int| 0 <= i < rest.len() implies entry_ok(#[trigger] rest[i], (n + 1 + i) as nat) by {
            assert(rest[i] == es[i + 1]);
            assert((n + (i + 1)) as nat == (n + 1 + i) as nat);
        }
        lemma_second_pass(rest, n + 1);
        let e = es[0];
        assert(entry_ok(e, n));
        let k = dec(n).len() + 1;
        let x = e.skip(k as int) + nl();
        assert(entry_of_block(trim(e)) == Some(x));
        assert(e =~= e.take(k as int) + e.skip(k as int));
        assert(dec(n) + "\n"@ + x + "\n"@ =~= e + nl2());
    }
}

/// Splitting entries joined by blank lines gives them back.
proof fn lemma_split_joined(es: Seq<Seq<char>>)
    requires
        es.len() > 0,
        forall|i: int| 0 <= i < es.len() ==> {
            let e = #[trigger] es[i];
            &&& e.len() > 0
            &&& no_blank_line(e)
            &&& e.last() != '\n'
        },
    ensures
        split(joined(es), nl2()) == es,
    decreases es.len(),
{
    let e = es[0];
    assert(e.len() > 0 && no_blank_line(e) && e.last() != '\n');
    assert forall|k: int| 0 <= k < e.len() implies !occurs_at(e, nl2(), k) by {
        if occurs_at(e, nl2(), k) {
            assert(e.subrange(k, k + 2)[0] == e[k]);
            assert(e.subrange(k, k + 2)[1] == e[k + 1]);
        }
    }
    if es.len() == 1 {
        lemma_find_from(e, nl2(), 0);
        assert(find_from(e, nl2(), 0) is None);
        assert(joined(es) == e);
        assert(split(e, nl2()) == seq![e.subrange(0, e.len() as int)]);
        assert(e.subrange(0, e.len() as int) =~= e);
        assert(split(e, nl2()) =~= es);
    } else {
        let rest = es.drop_first();
        assert forall|i: int| 0 <= i < rest.len() implies {
            let r = #[trigger] rest[i];
            &&& r.len() > 0
            &&& no_blank_line(r)
            &&& r.last() != '\n'
        } by {
            assert(rest[i] == es[i + 1]);
        }
        lemma_split_joined(rest);
        let s = joined(es);
        assert(s == e + nl2() + joined(rest));
        assert forall|k: int| 0 <= k < e.len() implies !occurs_at(s, nl2(), k) by {
            if occurs_at(s, nl2(), k) {
                assert(s.subrange(k, k + 2)[0] == s[k]);
                assert(s.subrange(k, k + 2)[1] == s[k + 1]);
                assert(s[k] == e[k]);
                if k + 1 < e.len() {
                    assert(s[k + 1] == e[k + 1]);
                } else {
                    assert(e[k] == e.last());
                }
            }
        }
        assert(s.subrange(e.len() as int, e.len() + 2int) =~= nl2());
        lemma_find_first(s, nl2(), 0, e.len() as int);
        assert(s =~= (e + nl2()) + joined(rest));
        lemma_split_shift(e + nl2(), joined(rest), nl2(), 0);
        assert(s.subrange(0, e.len() as int) =~= e);
        assert(split(s, nl2()) == seq![e] + split_from(s, nl2(), e.len() + 2int));
        assert(split(s, nl2()) =~= es);
    }
}

/// Merging an already merged SubRip document gives it back unchanged, for
/// documents without carriage returns whose entries number at most
/// `u32::MAX`.
pub proof fn law_merge_idempotent(captions: Seq<Seq<char>>)
    requires
        forall|c: int| 0 <= c < captions.len() ==> no_cr(#[trigger] captions[c]),
        entry_texts(srt_blocks(captions), 1).len() <= u32::MAX,
    ensures
        merged_srt(seq![merged_srt(captions)]) == merged_srt(captions),
{
    lemma_literals();
    let all = srt_blocks(captions);
    lemma_blocks_plain(captions);
    lemma_first_pass(all, 1);
    let es = entry_texts(all, 1);
    let m = merged_srt(captions);
    let again = seq![m];
    assert(again.map_values(|c: Seq<char>| split(c, "\n\n"@)) =~= seq![split(m, nl2())]);
    assert(seq![split(m, nl2())].flatten() =~= split(m, nl2())) by {
        seq![split(m, nl2())].lemma_flatten_one_element();
    }
    assert(srt_blocks(again) == split(m, nl2()));
    if es.len() == 0 {
        assert(m == trim(Seq::<char>::empty()));
        assert(m =~= Seq::<char>::empty());
        assert(find_from(m, nl2(), 0) is None);
        assert(split(m, nl2()) == seq![m.subrange(0, 0)]);
        assert(m.subrange(0, 0) =~= Seq::<char>::empty());
        assert(split(m, nl2()) =~= seq![Seq::<char>::empty()]);
        let b = split(m, nl2());
        assert(trim(b[0]) =~= Seq::<char>::empty());
        assert(renumbered(b, 1) == renumbered(b.drop_first(), 1));
        assert(b.drop_first() =~= Seq::<Seq<char>>::empty());
    } else {
        assert forall|i: int| 0 <= i < es.len() implies (#[trigger] es[i]).len() > 0 by {
            assert(entry_ok(es[i], (1 + i) as nat));
        }
        lemma_pieces_joined(es);
        assert(entry_ok(es[0], 1));
        assert(entry_ok(es[es.len() - 1], (1 + (es.len() - 1)) as nat));
        lemma_trim_breaks(joined(es));
        assert(m == joined(es));
        assert(is_ws('\n')) by {
            assert('\n' as u32 == 0x0A);
        }
        assert forall|i: int| 0 <= i < es.len() implies {
            let e = #[trigger] es[i];
            &&& e.len() > 0
            &&& no_blank_line(e)
            &&& e.last() != '\n'
        } by {
            assert(entry_ok(es[i], (1 + i) as nat));
        }
        lemma_split_joined(es);
        lemma_second_pass(es, 1);
    }
}


/// Whether a cue, timing and text, is written as a block that reads back as
/// itself: neither is empty, the text ends with no white space, and together
/// they hold no blank line and no carriage return.
pub open spec fn clean_cue(timing: Seq<char>, text: Seq<char>) -> bool {
    let j = timing + "\n"@ + text;
    &&& timing.len() > 0
    &&& timing[0] != '\n'
    &&& text.len() > 0
    &&& !is_ws(text.last())
    &&& no_blank_line(j)
    &&& no_cr(j)
}

/// The cues that converting the given blocks writes, numbered from `n`, each
/// without the blank line that follows it.
pub open spec fn cue_texts(blocks: Seq<Seq<char>>, n: nat) -> Seq<Seq<char>>
    decreases blocks.len(),
{
    if blocks.len() == 0 {
        seq![]
    } else {
        match cue_of_block(blocks[0]) {
            Some((t, x)) => seq![dec(n) + "\n"@ + (t + "\n"@ + x)] + cue_texts(blocks.drop_first(), n + 1),
            None => cue_texts(blocks.drop_first(), n),
        }
    }
}

/// Whether every cue of the blocks is clean.
pub open spec fn clean_cues(blocks: Seq<Seq<char>>) -> bool {
    forall|k: int| 0 <= k < blocks.len() ==> match cue_of_block(#[trigger] blocks[k]) {
        Some((t, x)) => clean_cue(t, x),
        None => true,
    }
}

/// Converting blocks with clean cues writes their cues, each followed by a
/// blank line, and each reads back as itself under its number.
proof fn lemma_cues_pass(blocks: Seq<Seq<char>>, n: nat)
    requires
        clean_cues(blocks),
        n + cue_texts(blocks, n).len() <= u32::MAX + 1,
    ensures
        srt_of_blocks(blocks, n) == pieces(cue_texts(blocks, n)),
        forall|i: int| 0 <= i < cue_texts(blocks, n).len() ==> entry_ok(#[trigger] cue_texts(blocks, n)[i], (n + i) as nat),
    decreases blocks.len(),
{
    lemma_literals();
    if blocks.len() > 0 {
        let rest = blocks.drop_first();
        assert forall|k: int| 0 <= k < rest.len() implies match cue_of_block(#[trigger] rest[k]) {
            Some((t, x)) => clean_cue(t, x),
            None => true,
        } by {
            assert(rest[k] == blocks[k + 1]);
        }
        match cue_of_block(blocks[0]) {
            Some((t, x)) => {
                let cs = cue_texts(blocks, n);
                let rs = cue_texts(rest, n + 1);
                lemma_cues_pass(rest, n + 1);
                let j = t + nl() + x;
                assert(clean_cue(t, x));
                assert(j[0] == t[0]);
                assert(j.last() == x.last());
                lemma_entry_text(j, n);
                assert(cs[0] == dec(n) + "\n"@ + j);
                assert(cs.drop_first() =~= rs);
                assert(srt_of_blocks(blocks, n) == srt_cue(n, t, x) + srt_of_blocks(rest, n + 1));
                reveal_strlit("\n\n");
                assert(srt_cue(n, t, x) =~= cs[0] + nl2());
                assert forall|i: int| 0 <= i < cs.len() implies entry_ok(#[trigger] cs[i], (n + i) as nat) by {
                    if i > 0 {
                        assert(cs[i] == rs[i - 1]);
                        assert((n + 1 + (i - 1)) as nat == (n + i) as nat);
                    }
                }
            },
            None => {
                lemma_cues_pass(rest, n);
            },
        }
    }
}

/// Splitting entries each followed by a blank line gives them back, and an
/// empty last piece.
proof fn lemma_split_pieces_back(es: Seq<Seq<char>>)
    requires
        forall|i: int| 0 <= i < es.len() ==> {
            let e = #[trigger] es[i];
            &&& e.len() > 0
            &&& no_blank_line(e)
            &&& e.last() != '\n'
        },
    ensures
        split(pieces(es), nl2()) == es.push(Seq::<char>::empty()),
    decreases es.len(),
{
    if es.len() == 0 {
        let s = pieces(es);
        assert(s =~= Seq::<char>::empty());
        assert(find_from(s, nl2(), 0) is None);
        assert(split(s, nl2()) == seq![s.subrange(0, 0)]);
        assert(s.subrange(0, 0) =~= Seq::<char>::empty());
        assert(split(s, nl2()) =~= es.push(Seq::<char>::empty()));
    } else {
        let e = es[0];
        let rest = es.drop_first();
        assert forall|i: int| 0 <= i < rest.len() implies {
            let r = #[trigger] rest[i];
            &&& r.len() > 0
            &&& no_blank_line(r)
            &&& r.last() != '\n'
        } by {
            assert(rest[i] == es[i + 1]);
        }
        lemma_split_pieces_back(rest);
        let s = pieces(es);
        assert(s == e + nl2() + pieces(rest));
        assert forall|k: int| 0 <= k < e.len() implies !occurs_at(s, nl2(), k) by {
            if occurs_at(s, nl2(), k) {
                assert(s.subrange(k, k + 2)[0] == s[k]);
                assert(s.subrange(k, k + 2)[1] == s[k + 1]);
                assert(s[k] == e[k]);
                if k + 1 < e.len() {
                    assert(s[k + 1] == e[k + 1]);
                } else {
                    assert(e[k] == e.last());
                }
            }
        }
        assert(s.subrange(e.len() as int, e.len() + 2int) =~= nl2());
        lemma_find_first(s, nl2(), 0, e.len() as int);
        assert(s =~= (e + nl2()) + pieces(rest));
        lemma_split_shift(e + nl2(), pieces(rest), nl2(), 0);
        assert(s.subrange(0, e.len() as int) =~= e);
        assert(split(s, nl2()) == seq![e] + split_from(s, nl2(), e.len() + 2int));
        assert(split(s, nl2()) =~= es.push(Seq::<char>::empty()));
    }
}

/// Merging entries that read back as themselves, and an empty last block,
/// writes the entries again.
proof fn lemma_second_pass_tail(es: Seq<Seq<char>>, n: nat)
    requires
        forall|i: int| 0 <= i < es.len() ==> entry_ok(#[trigger] es[i], (n + i) as nat),
    ensures
        renumbered(es.push(Seq::<char>::empty()), n) == pieces(es),
    decreases es.len(),
{
    lemma_literals();
    let bs = es.push(Seq::<char>::empty());
    if es.len() == 0 {
        assert(trim(bs[0]) =~= Seq::<char>::empty());
        assert(bs.drop_first() =~= Seq::<Seq<char>>::empty());
        assert(renumbered(bs, n) == renumbered(bs.drop_first(), n));
    } else {
        let rest = es.drop_first();
        assert forall|i: int| 0 <= i < rest.len() implies entry_ok(#[trigger] rest[i], (n + 1 + i) as nat) by {
            assert(rest[i] == es[i + 1]);
            assert((n + (i + 1)) as nat == (n + 1 + i) as nat);
        }
        lemma_second_pass_tail(rest, n + 1);
        assert(bs.drop_first() =~= rest.push(Seq::<char>::empty()));
        let e = es[0];
        assert(bs[0] == e);
        assert(entry_ok(e, n));
        let k = dec(n).len() + 1;
        let x = e.skip(k as int) + nl();
        assert(entry_of_block(trim(e)) == Some(x));
        assert(e =~= e.take(k as int) + e.skip(k as int));
        assert(dec(n) + "\n"@ + x + "\n"@ =~= e + nl2());
    }
}

/// Merging a converted caption document on its own gives it back without its
/// trailing white space, when every cue is clean (neither timing nor text
/// empty, the text ending with no white space, and no blank line or carriage
/// return among them) and the cues number at most `u32::MAX`.
pub proof fn law_merge_converted(vtt: Seq<char>)
    requires
        clean_cues(vtt_blocks(vtt)),
        cue_texts(vtt_blocks(vtt), 1).len() <= u32::MAX,
    ensures
        merged_srt(seq![vtt_to_srt_text(vtt)]) == trim_end(vtt_to_srt_text(vtt)),
{
    lemma_literals();
    let bl = vtt_blocks(vtt);
    lemma_cues_pass(bl, 1);
    let es = cue_texts(bl, 1);
    let s = vtt_to_srt_text(vtt);
    assert(s == pieces(es));
    let again = seq![s];
    assert(again.map_values(|c: Seq<char>| split(c, "\n\n"@)) =~= seq![split(s, nl2())]);
    assert(seq![split(s, nl2())].flatten() =~= split(s, nl2())) by {
        seq![split(s, nl2())].lemma_flatten_one_element();
    }
    assert(srt_blocks(again) == split(s, nl2()));
    assert(is_ws('\n')) by {
        assert('\n' as u32 == 0x0A);
    }
    assert forall|i: int| 0 <= i < es.len() implies {
        let e = #[trigger] es[i];
        &&& e.len() > 0
        &&& no_blank_line(e)
        &&& e.last() != '\n'
    } by {
        assert(entry_ok(es[i], (1 + i) as nat));
    }
    lemma_split_pieces_back(es);
    lemma_second_pass_tail(es, 1);
    if es.len() == 0 {
        assert(s =~= Seq::<char>::empty());
        assert(trim(Seq::<char>::empty()) =~= Seq::<char>::empty());
    } else {
        lemma_pieces_joined(es);
        assert(entry_ok(es[0], 1));
        assert(entry_ok(es[es.len() - 1], (1 + (es.len() - 1)) as nat));
        lemma_trim_breaks(joined(es));
        assert(s[0] == es[0][0]);
        assert(trim_start(s) == s);
    }
}

} // verus!

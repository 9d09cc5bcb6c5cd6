//! The title-screen rat: a PNG rendered to block-character art by RASCII
//! (`rascii_art`), uncolored (shape only), then cut into lines. The menu
//! applies its own color gradient so it matches the game's palette.

use vstd::prelude::*;

use rascii_art::{charsets, render_image_to, RenderOptions};

verus! {

/// The text that RASCII renders from the PNG file `png` at `width`
/// characters, with the block charset and no color, or `None` where the
/// bytes do not decode to a picture or the rendering fails.
pub uninterp spec fn block_art(png: Seq<u8>, width: u32) -> Option<Seq<char>>;

/// Trusted: decodes `png` with `image::load_from_memory` and renders the
/// picture with `rascii_art::render_image_to` (width `width`, uncolored,
/// `charsets::BLOCK`) into a string, handed back as its characters.
/// Claimed: the result is `block_art` of the arguments, `None` exactly when
/// either call fails. Not stated: the thumbnail the renderer allocates has a
/// height that follows the picture's aspect ratio, so a picture far taller
/// than wide can exhaust memory; nothing here bounds it.
#[verifier::external_body]
fn render_block_art(png: &[u8], width: u32) -> (r: Option<Vec<char>>)
    ensures
        match r {
            Some(text) => block_art(png@, width) == Some(text@),
            None => block_art(png@, width) is None,
        },
{
    let img = match image::load_from_memory(png) {
        Ok(img) => img,
        Err(_) => return None,
    };
    let mut buf = String::new();
    let opts = RenderOptions::new().width(width).colored(false).charset(charsets::BLOCK);
    match render_image_to(&img, &mut buf, &opts) {
        Ok(()) => Some(buf.chars().collect()),
        Err(_) => None,
    }
}

/// Trusted: std's `String::push`. Claimed: the character is appended.
#[verifier::external_body]
fn push_char(s: &mut String, c: char)
    ensures
        final(s)@ == old(s)@.push(c),
{
    s.push(c);
}

/// Whether `c` is white space in Unicode's sense (Rust's
/// `char::is_whitespace`).
pub open spec fn spec_is_whitespace(c: char) -> bool {
    let u = c as u32;
    ||| 0x09 <= u <= 0x0d
    ||| u == 0x20
    ||| u == 0x85
    ||| u == 0xa0
    ||| u == 0x1680
    ||| 0x2000 <= u <= 0x200a
    ||| u == 0x2028
    ||| u == 0x2029
    ||| u == 0x202f
    ||| u == 0x205f
    ||| u == 0x3000
}

/// The pieces of `text` between line feeds, in order; a text with `n` line
/// feeds has `n + 1` pieces.
pub open spec fn split_lines(text: Seq<char>) -> Seq<Seq<char>>
    decreases text.len(),
{
    if text.len() == 0 {
        seq![Seq::<char>::empty()]
    } else {
        let before = split_lines(text.drop_last());
        if text.last() == '\n' {
            before.push(Seq::<char>::empty())
        } else {
            before.update(before.len() - 1, before.last().push(text.last()))
        }
    }
}

/// `s` without its trailing white space.
pub open spec fn trim_end(s: Seq<char>) -> Seq<char>
    decreases s.len(),
{
    if s.len() > 0 && spec_is_whitespace(s.last()) {
        trim_end(s.drop_last())
    } else {
        s
    }
}

/// Each piece trimmed at its end, the pieces left empty dropped, in order.
pub open spec fn kept_lines(pieces: Seq<Seq<char>>) -> Seq<Seq<char>>
    decreases pieces.len(),
{
    if pieces.len() == 0 {
        Seq::empty()
    } else {
        let rest = kept_lines(pieces.drop_last());
        let t = trim_end(pieces.last());
        if t.len() == 0 {
            rest
        } else {
            rest.push(t)
        }
    }
}

/// The lines of art that `text` shows: its lines, each without trailing
/// white space (a carriage return among it), the blank ones left out.
pub open spec fn art_lines(text: Seq<char>) -> Seq<Seq<char>> {
    kept_lines(split_lines(text))
}

/// What the title shows of `text`: its lines of art, or `None` when there
/// are none.
pub open spec fn shown_art(text: Seq<char>) -> Option<Seq<Seq<char>>> {
    if art_lines(text).len() == 0 {
        None
    } else {
        Some(art_lines(text))
    }
}

fn is_whitespace(c: char) -> (r: bool)
    ensures
        r == spec_is_whitespace(c),
{
    let u = c as u32;
    (0x09 <= u && u <= 0x0d) || u == 0x20 || u == 0x85 || u == 0xa0 || u == 0x1680 || (0x2000 <= u
        && u <= 0x200a) || u == 0x2028 || u == 0x2029 || u == 0x202f || u == 0x205f || u == 0x3000
}

/// Trim `line` at its end and, unless nothing is left, add it to `out`.
fn keep_line(out: &mut Vec<String>, line: Vec<char>)
    ensures
        trim_end(line@).len() == 0 ==> final(out)@ == old(out)@,
        trim_end(line@).len() > 0 ==> final(out)@.len() == old(out)@.len() + 1 && final(out)@.take(
            old(out)@.len() as int,
        ) == old(out)@ && final(out)@.last()@ == trim_end(line@),
{
    let ghost given = line@;
    let mut line = line;
    while line.len() > 0 && is_whitespace(line[line.len() - 1])
        invariant
            trim_end(line@) == trim_end(given),
        decreases line.len(),
    {
        proof {
            assert(line@.drop_last() == line@.subrange(0, line@.len() - 1));
        }
        line.pop();
    }
    proof {
        assert(trim_end(line@) == line@);
    }
    if line.len() > 0 {
        let mut s = String::new();
        let mut i: usize = 0;
        while i < line.len()
            invariant
                i <= line@.len(),
                s@ == line@.take(i as int),
            decreases line.len() - i,
        {
            push_char(&mut s, line[i]);
            proof {
                assert(line@.take(i + 1) == line@.take(i as int).push(line@[i as int]));
            }
            i = i + 1;
        }
        proof {
            assert(line@.take(i as int) == line@);
        }
        let ghost before = out@;
        out.push(s);
        proof {
            assert(out@.take(before.len() as int) == before);
        }
    }
}

/// The lines of art in `text`: split at line feeds, each line trimmed at its
/// end, blank lines dropped; `None` when no line is left.
pub fn lines_of_art(text: &Vec<char>) -> (r: Option<Vec<String>>)
    ensures
        match shown_art(text@) {
            None => r is None,
            Some(ls) => r is Some && r->0@.len() == ls.len() && forall|i: int|
                0 <= i < ls.len() ==> (#[trigger] r->0@[i])@ == ls[i],
        },
{
    let mut out: Vec<String> = Vec::new();
    let mut cur: Vec<char> = Vec::new();
    let ghost mut done: Seq<Seq<char>> = Seq::empty();
    let mut i: usize = 0;
    while i < text.len()
        invariant
            i <= text@.len(),
            split_lines(text@.take(i as int)) == done.push(cur@),
            out@.len() == kept_lines(done).len(),
            forall|k: int| 0 <= k < out@.len() ==> (#[trigger] out@[k])@ == kept_lines(done)[k],
        decreases text.len() - i,
    {
        let c = text[i];
        proof {
            assert(text@.take(i + 1).drop_last() == text@.take(i as int));
            assert(text@.take(i + 1).last() == c);
        }
        if c == '\n' {
            let mut line: Vec<char> = Vec::new();
            std::mem::swap(&mut line, &mut cur);
            let ghost old_out = out@;
            keep_line(&mut out, line);
            proof {
                assert(done.push(line@).drop_last() == done);
                assert forall|k: int| 0 <= k < out@.len() implies (#[trigger] out@[k])@ == kept_lines(
                    done.push(line@),
                )[k] by {
                    if k < old_out.len() {
                        assert(out@.take(old_out.len() as int)[k] == out@[k]);
                    }
                }
                done = done.push(line@);
            }
        } else {
            let ghost prev = cur@;
            cur.push(c);
            proof {
                assert(done.push(prev).update(done.len() as int, prev.push(c)) == done.push(cur@));
            }
        }
        i = i + 1;
    }
    proof {
        assert(text@.take(i as int) == text@);
    }
    let ghost old_out = out@;
    let ghost last = cur@;
    keep_line(&mut out, cur);
    proof {
        assert(done.push(last).drop_last() == done);
        assert forall|k: int| 0 <= k < out@.len() implies (#[trigger] out@[k])@ == kept_lines(
            done.push(last),
        )[k] by {
            if k < old_out.len() {
                assert(out@.take(old_out.len() as int)[k] == out@[k]);
            }
        }
    }
    if out.len() == 0 {
        None
    } else {
        Some(out)
    }
}

/// Render the rat picture `png` to lines of block art `width` characters
/// wide. `None` when the picture cannot be decoded or rendered, or leaves no
/// line (the title then falls back to text).
pub fn rat_lines(png: &[u8], width: u32) -> (r: Option<Vec<String>>)
    ensures
        match block_art(png@, width) {
            None => r is None,
            Some(text) => match shown_art(text) {
                None => r is None,
                Some(ls) => r is Some && r->0@.len() == ls.len() && forall|i: int|
                    0 <= i < ls.len() ==> (#[trigger] r->0@[i])@ == ls[i],
            },
        },
{
    match render_block_art(png, width) {
        None => None,
        Some(text) => lines_of_art(&text),
    }
}

} // verus!

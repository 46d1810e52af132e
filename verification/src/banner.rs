//! The banner, in shades of gray that suit the terminal's background.

use crate::number::{decimal, write_number};
use crate::text::{
    center, centered, contains_text, fill, pad_left, padded_left, padded_texts_end_at_the_margin,
    texts, texts_are_found_anywhere,
};
use vstd::prelude::*;
use vstd::string::*;

verus! {

/// Width of the banner in characters.
pub const BANNER_WIDTH: usize = 66;

/// Lines of lettering.
pub const BANNER_HEIGHT: usize = 6;

/// Line `i` of the lettering.
pub open spec fn lettering(i: int) -> Seq<char> {
    if i == 0 {
        "████████╗███████╗███████╗███████╗███████╗██████╗  █████╗ ███████╗"@
    } else if i == 1 {
        "╚══██╔══╝██╔════╝██╔════╝██╔════╝██╔════╝██╔══██╗██╔══██╗██╔════╝"@
    } else if i == 2 {
        "   ██║   █████╗  ███████╗███████╗█████╗  ██████╔╝███████║███████╗"@
    } else if i == 3 {
        "   ██║   ██╔══╝  ╚════██║╚════██║██╔══╝  ██╔══██╗██╔══██║╚════██║"@
    } else if i == 4 {
        "   ██║   ███████╗███████║███████║███████╗██║  ██║██║  ██║███████║"@
    } else {
        "   ╚═╝   ╚══════╝╚══════╝╚══════╝╚══════╝╚═╝  ╚═╝╚═╝  ╚═╝╚══════╝"@
    }
}

/// The shade of line `i`: on a dark background from bright white (240) to medium gray (120), on
/// a light one from near-black (30) to medium gray (140).
pub open spec fn shade(i: int, light: bool) -> int {
    if light {
        30 + 110 * i / (BANNER_HEIGHT - 1)
    } else {
        240 - 120 * i / (BANNER_HEIGHT - 1)
    }
}

/// `s` in the gray whose three channels are `gray`; `style` holds codes that come before.
pub open spec fn in_gray(style: Seq<char>, gray: int, s: Seq<char>) -> Seq<char> {
    let g = decimal(gray as nat);
    "\x1b["@ + style + "38;2;"@ + g + ";"@ + g + ";"@ + g + "m"@ + s + "\x1b[0m"@
}

/// Line `i` of the lettering as it is printed.
pub open spec fn lettering_line(i: int, light: bool, no_color: bool) -> Seq<char> {
    if no_color {
        lettering(i)
    } else {
        in_gray(""@, shade(i, light), lettering(i))
    }
}

/// The version at the right margin.
pub open spec fn version_line(version: Seq<char>, light: bool, no_color: bool) -> Seq<char> {
    let s = padded_left("v"@ + version, BANNER_WIDTH as int, ' ');
    if no_color {
        s
    } else {
        in_gray(
            ""@,
            if light {
                100
            } else {
                140
            },
            s,
        )
    }
}

/// The motto and the time, in the middle.
pub open spec fn motto_line(now: Seq<char>, light: bool, no_color: bool) -> Seq<char> {
    let s = centered("Shut Up and Hack - "@ + now, BANNER_WIDTH as int, ' ');
    if no_color {
        s
    } else {
        in_gray(
            "1;3;"@,
            if light {
                80
            } else {
                160
            },
            s,
        )
    }
}

/// The banner, line by line.
pub open spec fn banner_text(
    version: Seq<char>,
    now: Seq<char>,
    light: bool,
    no_color: bool,
) -> Seq<Seq<char>> {
    Seq::new(BANNER_HEIGHT as nat, |i: int| lettering_line(i, light, no_color)).push(
        version_line(version, light, no_color),
    ).push(motto_line(now, light, no_color)).push(""@)
}

fn letters(i: usize) -> (r: &'static str)
    ensures
        r@ == lettering(i as int),
{
    if i == 0 {
        "████████╗███████╗███████╗███████╗███████╗██████╗  █████╗ ███████╗"
    } else if i == 1 {
        "╚══██╔══╝██╔════╝██╔════╝██╔════╝██╔════╝██╔══██╗██╔══██╗██╔════╝"
    } else if i == 2 {
        "   ██║   █████╗  ███████╗███████╗█████╗  ██████╔╝███████║███████╗"
    } else if i == 3 {
        "   ██║   ██╔══╝  ╚════██║╚════██║██╔══╝  ██╔══██╗██╔══██║╚════██║"
    } else if i == 4 {
        "   ██║   ███████╗███████║███████║███████╗██║  ██║██║  ██║███████║"
    } else {
        "   ╚═╝   ╚══════╝╚══════╝╚══════╝╚══════╝╚═╝  ╚═╝╚═╝  ╚═╝╚══════╝"
    }
}

fn paint(style: &str, gray: u64, s: &str) -> (r: String)
    ensures
        r@ == in_gray(style@, gray as int, s@),
{
    let g = write_number(gray);
    let mut r = "\x1b[".to_owned();
    r.append(style);
    r.append("38;2;");
    r.append(g.as_str());
    r.append(";");
    r.append(g.as_str());
    r.append(";");
    r.append(g.as_str());
    r.append("m");
    r.append(s);
    r.append("\x1b[0m");
    r
}

/// The banner, line by line, for a light or a dark background, with or without colour.
pub fn banner_lines(version: &str, now: &str, light: bool, no_color: bool) -> (r: Vec<String>)
    ensures
        texts(r@) == banner_text(version@, now@, light, no_color),
{
    let mut r: Vec<String> = Vec::new();
    let mut i: usize = 0;
    while i < BANNER_HEIGHT
        invariant
            i <= BANNER_HEIGHT,
            r@.len() == i,
            forall|j: int|
                0 <= j < i ==> (#[trigger] r@[j])@ == lettering_line(j, light, no_color),
        decreases BANNER_HEIGHT - i,
    {
        if no_color {
            r.push(letters(i).to_owned());
        } else {
            let step: u64 = i as u64;
            let gray: u64 = if light { 30 + 110 * step / 5 } else { 240 - 120 * step / 5 };
            r.push(paint("", gray, letters(i)));
        }
        i += 1;
    }
    proof {
        reveal_strlit(" ");
    }
    let mut v = "v".to_owned();
    v.append(version);
    let v = pad_left(v.as_str(), BANNER_WIDTH, " ");
    if no_color {
        r.push(v);
    } else {
        r.push(paint("", if light { 100 } else { 140 }, v.as_str()));
    }
    let mut motto = "Shut Up and Hack - ".to_owned();
    motto.append(now);
    let motto = center(motto.as_str(), BANNER_WIDTH, " ");
    if no_color {
        r.push(motto);
    } else {
        r.push(paint("1;3;", if light { 80 } else { 160 }, motto.as_str()));
    }
    r.push("".to_owned());
    assert(texts(r@) =~= banner_text(version@, now@, light, no_color));
    r
}

/// Colour adds codes around a line and nothing in it, and without colour the lines stand as they
/// are: the version at the right margin, the time behind the motto.
pub proof fn colour_changes_no_text(version: Seq<char>, now: Seq<char>, light: bool, i: int)
    requires
        0 <= i < 9,
    ensures
        banner_text(version, now, light, false).len() == 9,
        banner_text(version, now, light, true).len() == 9,
        contains_text(
            banner_text(version, now, light, false)[i],
            banner_text(version, now, light, true)[i],
        ),
        banner_text(version, now, light, true) == banner_text(version, now, !light, true),
        version.is_suffix_of(banner_text(version, now, light, true)[6]),
        version.len() < 66 ==> banner_text(version, now, light, true)[6].len() == 66,
        contains_text(banner_text(version, now, light, true)[7], now),
        banner_text(version, now, light, true)[8].len() == 0,
{
    let plain = banner_text(version, now, light, true);
    let v = "v"@ + version;
    let motto = "Shut Up and Hack - "@ + now;
    reveal_strlit("v");
    reveal_strlit("");
    assert(plain =~= banner_text(version, now, !light, true));
    if i < 6 {
        lemma_painted(""@, shade(i, light), lettering(i));
    } else if i == 6 {
        lemma_painted(
            ""@,
            if light {
                100
            } else {
                140
            },
            plain[6],
        );
    } else if i == 7 {
        lemma_painted(
            "1;3;"@,
            if light {
                80
            } else {
                160
            },
            plain[7],
        );
    } else {
        texts_are_found_anywhere(""@, ""@, ""@, ""@);
        assert(""@ + ""@ + ""@ =~= ""@);
    }
    padded_texts_end_at_the_margin(v, 66, ' ');
    let line = plain[6];
    assert(line.subrange(line.len() - version.len(), line.len() as int) =~= version) by {
        assert(line.subrange(line.len() - v.len(), line.len() as int) == v);
        assert(line.subrange(line.len() - version.len(), line.len() as int) =~= line.subrange(
            line.len() - v.len(),
            line.len() as int,
        ).skip(1));
        assert(v.skip(1) =~= version);
    }
    let mid = plain[7];
    if motto.len() < 66 {
        let room = 66 - motto.len();
        let a = fill(' ', room / 2);
        let b = fill(' ', room - room / 2);
        texts_are_found_anywhere(now, a + "Shut Up and Hack - "@, now, b);
        assert(mid =~= a + "Shut Up and Hack - "@ + now + b);
    } else {
        texts_are_found_anywhere(now, "Shut Up and Hack - "@, now, ""@);
        assert(mid =~= "Shut Up and Hack - "@ + now + ""@);
    }
}

proof fn lemma_painted(style: Seq<char>, gray: int, s: Seq<char>)
    ensures
        contains_text(in_gray(style, gray, s), s),
{
    let g = decimal(gray as nat);
    let head = "\x1b["@ + style + "38;2;"@ + g + ";"@ + g + ";"@ + g + "m"@;
    texts_are_found_anywhere(s, head, s, "\x1b[0m"@);
}

/// The lettering fades: on a dark background from line to line towards gray from white, on a light
/// one towards gray from black, between the two shades that are named.
pub proof fn the_lettering_fades(i: int, j: int)
    requires
        0 <= i < j < 6,
    ensures
        30 <= shade(i, true) < shade(j, true) <= 140,
        240 >= shade(i, false) > shade(j, false) >= 120,
        shade(0, true) == 30 && shade(5, true) == 140,
        shade(0, false) == 240 && shade(5, false) == 120,
{
}

} // verus!

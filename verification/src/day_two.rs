//! Cube-game checker: parses a game line into its numbered draws of red,
//! green and blue counts, and decides whether a game is possible under given
//! limits.

use crate::text::{
    chars_of, dec_val, parses_as_u32, split_char, split_on, vecs_view, ws_split, ws_tokens,
};
use vstd::prelude::*;

verus! {

/// The cube counts one draw shows. A repeated color within one draw
/// overwrites the earlier count.
#[derive(Debug, PartialEq, Eq, Clone, Copy)]
pub struct Draw {
    pub red: u32,
    pub green: u32,
    pub blue: u32,
}

/// One game line: its id and its draws, in order.
#[derive(Debug, PartialEq, Eq, Clone)]
pub struct Game {
    pub id: u32,
    pub colors: Vec<Draw>,
}

pub open spec fn red_chars() -> Seq<char> {
    seq!['r', 'e', 'd']
}

pub open spec fn green_chars() -> Seq<char> {
    seq!['g', 'r', 'e', 'e', 'n']
}

pub open spec fn blue_chars() -> Seq<char> {
    seq!['b', 'l', 'u', 'e']
}

/// One `<count> <color>` entry is well formed: at least two whitespace
/// tokens, a decimal count that fits `u32`, and a known color word.
pub open spec fn entry_ok(entry: Seq<char>) -> bool {
    let toks = ws_tokens(entry);
    toks.len() >= 2 && parses_as_u32(toks[0]) && (toks[1] == red_chars() || toks[1]
        == green_chars() || toks[1] == blue_chars())
}

pub open spec fn draw_ok(dp: Seq<char>) -> bool {
    forall|ei: int| 0 <= ei < split_on(dp, ',').len() ==> entry_ok(#[trigger] split_on(dp, ',')[ei])
}

/// A game line is well formed: a `:` after the header, an id as the second
/// header token, and every `,`-separated entry of every `;`-separated draw
/// well formed; any other nonempty line is rejected.
pub open spec fn wf_game_line(s: Seq<char>) -> bool {
    let parts = split_on(s, ':');
    parts.len() >= 2 && ws_tokens(parts[0]).len() >= 2 && parses_as_u32(ws_tokens(parts[0])[1])
        && (forall|di: int|
        0 <= di < split_on(parts[1], ';').len() ==> draw_ok(#[trigger] split_on(parts[1], ';')[di]))
}

pub open spec fn game_id(s: Seq<char>) -> u32 {
    dec_val(ws_tokens(split_on(s, ':')[0])[1]) as u32
}

/// The counts of one draw: each entry read left to right, the count written
/// into its color's field.
pub open spec fn draw_counts(entries: Seq<Seq<char>>) -> Draw
    decreases entries.len(),
{
    if entries.len() == 0 {
        Draw { red: 0, green: 0, blue: 0 }
    } else {
        let pre = draw_counts(entries.drop_last());
        let toks = ws_tokens(entries.last());
        let cnt = dec_val(toks[0]) as u32;
        if toks.len() >= 2 && toks[1] == red_chars() {
            Draw { red: cnt, green: pre.green, blue: pre.blue }
        } else if toks.len() >= 2 && toks[1] == green_chars() {
            Draw { red: pre.red, green: cnt, blue: pre.blue }
        } else if toks.len() >= 2 && toks[1] == blue_chars() {
            Draw { red: pre.red, green: pre.green, blue: cnt }
        } else {
            pre
        }
    }
}

/// The draws of a game line, in order.
pub open spec fn game_colors(s: Seq<char>) -> Seq<Draw> {
    split_on(split_on(s, ':')[1], ';').map_values(|dp: Seq<char>| draw_counts(split_on(dp, ',')))
}

fn chars_eq(a: &Vec<char>, b: &Vec<char>) -> (r: bool)
    ensures
        r == (a@ == b@),
{
    if a.len() != b.len() {
        return false;
    }
    let mut i: usize = 0;
    while i < a.len()
        invariant
            a@.len() == b@.len(),
            i <= a@.len(),
            forall|t: int| 0 <= t < i ==> a@[t] == b@[t],
        decreases a@.len() - i,
    {
        if a[i] != b[i] {
            return false;
        }
        i = i + 1;
    }
    proof {
        assert(a@ =~= b@);
    }
    true
}

/// Reads one draw's entries into its counts: `None` exactly when some entry
/// is malformed.
fn parse_draw(dp: &Vec<char>) -> (r: Option<Draw>)
    ensures
        r is Some <==> draw_ok(dp@),
        r matches Some(d) ==> d == draw_counts(split_on(dp@, ',')),
{
    let entries = split_char(dp, ',');
    let ghost eview = vecs_view(entries@);
    let red_w: Vec<char> = vec!['r', 'e', 'd'];
    let green_w: Vec<char> = vec!['g', 'r', 'e', 'e', 'n'];
    let blue_w: Vec<char> = vec!['b', 'l', 'u', 'e'];
    proof {
        assert(red_w@ =~= red_chars());
        assert(green_w@ =~= green_chars());
        assert(blue_w@ =~= blue_chars());
    }
    let mut cur = Draw { red: 0, green: 0, blue: 0 };
    let mut k: usize = 0;
    while k < entries.len()
        invariant
            eview == vecs_view(entries@),
            eview == split_on(dp@, ','),
            k <= entries@.len(),
            red_w@ == red_chars(),
            green_w@ == green_chars(),
            blue_w@ == blue_chars(),
            cur == draw_counts(eview.take(k as int)),
            forall|t: int| 0 <= t < k ==> entry_ok(#[trigger] eview[t]),
        decreases entries@.len() - k,
    {
        let toks = ws_split(&entries[k]);
        proof {
            assert(vecs_view(toks@) == ws_tokens(eview[k as int]));
            assert(eview.take(k + 1).drop_last() =~= eview.take(k as int));
            assert(eview.take(k + 1).last() == eview[k as int]);
        }
        if toks.len() < 2 {
            proof {
                assert(!entry_ok(eview[k as int]));
            }
            return None;
        }
        let cnt = match crate::text::parse_u32_chars(&toks[0]) {
            Some(c) => c,
            None => {
                proof {
                    assert(!entry_ok(eview[k as int]));
                }
                return None;
            },
        };
        if chars_eq(&toks[1], &red_w) {
            cur = Draw { red: cnt, green: cur.green, blue: cur.blue };
        } else if chars_eq(&toks[1], &green_w) {
            cur = Draw { red: cur.red, green: cnt, blue: cur.blue };
        } else if chars_eq(&toks[1], &blue_w) {
            cur = Draw { red: cur.red, green: cur.green, blue: cnt };
        } else {
            proof {
                assert(!entry_ok(eview[k as int]));
            }
            return None;
        }
        k = k + 1;
    }
    proof {
        assert(eview.take(entries@.len() as int) =~= eview);
    }
    Some(cur)
}

/// Parses one nonempty game line, total: `None` exactly when the line is not
/// well formed.
pub fn try_parse(line: &str) -> (r: Option<Game>)
    ensures
        r is Some <==> wf_game_line(line@),
        r matches Some(g) ==> g.id == game_id(line@) && g.colors@ == game_colors(line@),
{
    let cs = chars_of(line);
    let parts = split_char(&cs, ':');
    if parts.len() < 2 {
        return None;
    }
    let head_toks = ws_split(&parts[0]);
    proof {
        assert(vecs_view(head_toks@) == ws_tokens(split_on(line@, ':')[0]));
    }
    if head_toks.len() < 2 {
        return None;
    }
    let id = match crate::text::parse_u32_chars(&head_toks[1]) {
        Some(v) => v,
        None => {
            return None;
        },
    };
    let dps = split_char(&parts[1], ';');
    let ghost dview = vecs_view(dps@);
    proof {
        assert(dview == split_on(split_on(line@, ':')[1], ';'));
    }
    let mut colors: Vec<Draw> = Vec::new();
    let mut di: usize = 0;
    while di < dps.len()
        invariant
            dview == vecs_view(dps@),
            dview == split_on(split_on(line@, ':')[1], ';'),
            di <= dps@.len(),
            colors@ == dview.take(di as int).map_values(
                |dp: Seq<char>| draw_counts(split_on(dp, ',')),
            ),
            forall|t: int| 0 <= t < di ==> draw_ok(#[trigger] dview[t]),
        decreases dps@.len() - di,
    {
        let d = match parse_draw(&dps[di]) {
            Some(d) => d,
            None => {
                proof {
                    assert(!draw_ok(dview[di as int]));
                }
                return None;
            },
        };
        colors.push(d);
        proof {
            assert(colors@ =~= dview.take(di + 1).map_values(
                |dp: Seq<char>| draw_counts(split_on(dp, ',')),
            ));
        }
        di = di + 1;
    }
    proof {
        assert(dview.take(dps@.len() as int) =~= dview);
        assert(colors@ =~= game_colors(line@));
    }
    Some(Game { id, colors })
}

/// Parses one game line: an empty line is handed back as the error, and any
/// other line must be well formed.
pub fn parse(line: &str) -> (r: Result<Game, &str>)
    requires
        line@.len() > 0 ==> wf_game_line(line@),
    ensures
        line@.len() == 0 ==> (r matches Err(e) && e@ == line@),
        line@.len() > 0 ==> (r matches Ok(g) && g.id == game_id(line@) && g.colors@
            == game_colors(line@)),
{
    if line.unicode_len() == 0 {
        return Err(line);
    }
    Ok(try_parse(line).unwrap())
}

/// A game is possible when no draw shows more red, green or blue cubes than
/// the given limits.
pub fn is_possible(game: &Game, nreds: u32, ngreens: u32, nblues: u32) -> (r: bool)
    ensures
        r == forall|k: int|
            0 <= k < game.colors@.len() ==> ((#[trigger] game.colors@[k]).red <= nreds
                && game.colors@[k].green <= ngreens && game.colors@[k].blue <= nblues),
{
    let mut k: usize = 0;
    while k < game.colors.len()
        invariant
            k <= game.colors@.len(),
            forall|t: int|
                0 <= t < k ==> ((#[trigger] game.colors@[t]).red <= nreds
                    && game.colors@[t].green <= ngreens && game.colors@[t].blue <= nblues),
        decreases game.colors@.len() - k,
    {
        let d = &game.colors[k];
        if d.red > nreds || d.green > ngreens || d.blue > nblues {
            return false;
        }
        k = k + 1;
    }
    true
}

} // verus!

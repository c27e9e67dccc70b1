use vstd::prelude::*;

use crate::board::Pixel;
use crate::picross_image::Clue;
use crate::picross_image::Color;
use crate::picross_image::effective;
use crate::picross_image::lemma_run_len_is_max_prefix;
use crate::picross_image::line_clues;
use crate::picross_image::run_len;
use crate::picross_image::white;
use crate::picross_image::white_color;
use crate::solver::GameLine;
use crate::solver::Proposition;

verus! {

/// The exact-fit line rule: the one built-in solving strategy. A line whose
/// clues fit with zero slack has a unique placement; if the board does not
/// show it in full yet, the rule proposes it.
pub struct FullLine;

/// The least line length that can hold the clues after a run of color `prev`:
/// each clue's count, plus one separator cell before a clue that shares its
/// color with the run laid down just before it.
pub open spec fn required_from(clues: Seq<Clue>, prev: Color) -> int
    decreases clues.len(),
{
    if clues.len() == 0 {
        0
    } else {
        (if clues[0].color == prev {
            1int
        } else {
            0int
        }) + clues[0].count + required_from(clues.skip(1), clues[0].color)
    }
}

/// The unique placement of the clues after a run of color `prev`: each clue's
/// run of filled cells, preceded by one Marked separator when it shares its
/// color with the run laid down just before it.
pub open spec fn forced_from(clues: Seq<Clue>, prev: Color) -> Seq<Pixel>
    decreases clues.len(),
{
    if clues.len() == 0 {
        Seq::empty()
    } else {
        let c = clues[0].color;
        (if c == prev {
            seq![Pixel::Cross]
        } else {
            Seq::<Pixel>::empty()
        }) + Seq::new(clues[0].count as nat, |k: int| Pixel::Color(c)) + forced_from(
            clues.skip(1),
            c,
        )
    }
}

/// The placement is exactly as long as the least length the clues demand.
pub proof fn lemma_forced_len(clues: Seq<Clue>, prev: Color)
    ensures
        forced_from(clues, prev).len() == required_from(clues, prev),
        required_from(clues, prev) >= 0,
    decreases clues.len(),
{
    if clues.len() > 0 {
        lemma_forced_len(clues.skip(1), clues[0].color);
    }
}

/// Whether the first n cells of a forced placement are already fully
/// reflected on a line of the board: wherever the placement puts a color,
/// the board already holds exactly that color.
pub open spec fn reflects_upto(bl: Seq<Pixel>, placement: Seq<Pixel>, n: int) -> bool {
    forall|k: int| 0 <= k < n ==> ((#[trigger] placement[k]) is Color ==> bl[k] == placement[k])
}

/// Whether a forced placement is already fully reflected on a line of the board.
pub open spec fn line_reflects(bl: Seq<Pixel>, placement: Seq<Pixel>) -> bool {
    reflects_upto(bl, placement, placement.len() as int)
}

/// One more cell reflects exactly when the cells before it do and the new
/// cell either carries no color or already shows it.
proof fn lemma_reflects_extend(bl: Seq<Pixel>, placement: Seq<Pixel>, n: int)
    requires
        0 <= n,
    ensures
        reflects_upto(bl, placement, n + 1) == (reflects_upto(bl, placement, n) && (placement[n]
            is Color ==> bl[n] == placement[n])),
{
    if reflects_upto(bl, placement, n) && (placement[n] is Color ==> bl[n] == placement[n]) {
        assert forall|k: int|
            0 <= k < n + 1 implies ((#[trigger] placement[k]) is Color ==> bl[k]
            == placement[k]) by {
            if k < n {
                assert(reflects_upto(bl, placement, n));
            }
        }
    }
    if reflects_upto(bl, placement, n + 1) {
        assert(placement[n] is Color ==> bl[n] == placement[n]);
    }
}

/// Whether the exact-fit rule yields a proposition for a line: the clues fit
/// with zero slack, and the unique placement is not yet fully reflected.
pub open spec fn line_proposes(clues: Seq<Clue>, bl: Seq<Pixel>) -> bool {
    &&& required_from(clues, white()) == bl.len()
    &&& !line_reflects(bl, forced_from(clues, white()))
}

/// The sum of the clue counts plus the number of adjacent same-color pairs.
pub open spec fn min_required_len(clues: Seq<Clue>) -> int
    decreases clues.len(),
{
    if clues.len() == 0 {
        0
    } else {
        clues[0].count + (if clues.len() > 1 && clues[1].color == clues[0].color {
            1int
        } else {
            0int
        }) + min_required_len(clues.skip(1))
    }
}

/// The least length the clues demand is the sum of their counts plus the
/// number of adjacent same-color pairs, plus one more separator when the
/// first clue continues the color laid down just before.
pub proof fn lemma_required_is_min_len(clues: Seq<Clue>, prev: Color)
    ensures
        required_from(clues, prev) == min_required_len(clues) + (if clues.len() > 0
            && clues[0].color == prev {
            1int
        } else {
            0int
        }),
    decreases clues.len(),
{
    if clues.len() > 0 {
        lemma_required_is_min_len(clues.skip(1), clues[0].color);
        if clues.len() > 1 {
            assert(clues.skip(1)[0] == clues[1]);
        }
    }
}

/// The position in the unique placement where clue i's run of filled cells
/// begins: everything the clues before it demand, plus this clue's own
/// separator when it continues the preceding color.
pub open spec fn run_start(clues: Seq<Clue>, prev: Color, i: int) -> int {
    required_from(clues.take(i), prev) + (if clues[i].color == seed_color_from(clues, prev, i) {
        1int
    } else {
        0int
    })
}

/// The color laid down just before clue i: `prev` for the first clue, else
/// the preceding clue's color.
pub open spec fn seed_color_from(clues: Seq<Clue>, prev: Color, i: int) -> Color {
    if i == 0 {
        prev
    } else {
        clues[i - 1].color
    }
}

/// Slack-zero determinism (law): in the unique placement of a clue list,
/// clue i's run of `count` cells of its color starts at `run_start`, and a
/// Marked cell stands at the position immediately before it exactly when the
/// clue shares its color with the run laid down just before.
pub proof fn lemma_slack_zero_determinism(clues: Seq<Clue>, prev: Color, i: int)
    requires
        0 <= i < clues.len(),
    ensures
        forall|k: int|
            run_start(clues, prev, i) <= k < run_start(clues, prev, i) + clues[i].count
                ==> forced_from(clues, prev)[k] == Pixel::Color(clues[i].color),
        clues[i].color == seed_color_from(clues, prev, i) ==> forced_from(clues, prev)[run_start(
            clues,
            prev,
            i,
        ) - 1] == Pixel::Cross,
    decreases i,
{
    let c = clues[0].color;
    let sep: Seq<Pixel> = if c == prev {
        seq![Pixel::Cross]
    } else {
        Seq::<Pixel>::empty()
    };
    let run = Seq::new(clues[0].count as nat, |k: int| Pixel::Color(c));
    let tail = forced_from(clues.skip(1), c);
    assert(forced_from(clues, prev) == sep + run + tail);
    lemma_forced_len(clues.skip(1), c);
    if i == 0 {
        assert(clues.take(0) =~= Seq::<Clue>::empty());
        assert(run_start(clues, prev, 0) == sep.len());
        assert forall|k: int|
            sep.len() <= k < sep.len() + clues[0].count implies forced_from(clues, prev)[k]
            == Pixel::Color(c) by {
            assert((sep + run + tail)[k] == run[k - sep.len()]);
        }
    } else {
        lemma_slack_zero_determinism(clues.skip(1), c, i - 1);
        let head = sep.len() + clues[0].count;
        assert(clues.skip(1)[i - 1] == clues[i]);
        if i > 1 {
            assert(clues.skip(1)[i - 2] == clues[i - 1]);
        }
        assert(seed_color_from(clues.skip(1), c, i - 1) == seed_color_from(clues, prev, i));
        assert(clues.take(i)[0] == clues[0]);
        assert(clues.take(i).skip(1) =~= clues.skip(1).take(i - 1));
        assert(required_from(clues.take(i), prev) == head + required_from(
            clues.skip(1).take(i - 1),
            c,
        ));
        assert(run_start(clues, prev, i) == head + run_start(clues.skip(1), c, i - 1));
        assert forall|k: int|
            run_start(clues, prev, i) <= k < run_start(clues, prev, i)
                + clues[i].count implies forced_from(clues, prev)[k] == Pixel::Color(
            clues[i].color,
        ) by {
            lemma_required_take_bounds(clues.skip(1), c, i - 1);
            assert((sep + run + tail)[k] == tail[k - head]);
            assert(tail[k - head] == Pixel::Color(clues[i].color));
        }
        if clues[i].color == seed_color_from(clues, prev, i) {
            lemma_required_take_bounds(clues.skip(1), c, i - 1);
            assert((sep + run + tail)[run_start(clues, prev, i) - 1] == tail[run_start(
                clues.skip(1),
                c,
                i - 1,
            ) - 1]);
        }
    }
}

/// What the clues before clue i demand, together with clue i's own cells,
/// fits inside what the whole clue list demands.
pub proof fn lemma_required_take_bounds(clues: Seq<Clue>, prev: Color, i: int)
    requires
        0 <= i < clues.len(),
    ensures
        0 <= required_from(clues.take(i), prev),
        run_start(clues, prev, i) + clues[i].count <= required_from(clues, prev),
        required_from(clues.take(i), prev) <= run_start(clues, prev, i),
    decreases i,
{
    lemma_forced_len(clues.take(i), prev);
    let c = clues[0].color;
    if i == 0 {
        assert(clues.take(0) =~= Seq::<Clue>::empty());
        lemma_forced_len(clues.skip(1), c);
    } else {
        lemma_required_take_bounds(clues.skip(1), c, i - 1);
        assert(clues.skip(1)[i - 1] == clues[i]);
        if i > 1 {
            assert(clues.skip(1)[i - 2] == clues[i - 1]);
        }
        assert(seed_color_from(clues.skip(1), c, i - 1) == seed_color_from(clues, prev, i));
        assert(clues.take(i)[0] == clues[0]);
        assert(clues.take(i).skip(1) =~= clues.skip(1).take(i - 1));
    }
}

/// Slack presence (law): when the clues demand less than the line's length,
/// the exact-fit rule proposes nothing, whatever the board holds.
pub proof fn lemma_slack_presence(clues: Seq<Clue>, bl: Seq<Pixel>)
    requires
        forall|i: int| 0 <= i < clues.len() ==> (#[trigger] clues[i]).color != white(),
        min_required_len(clues) < bl.len(),
    ensures
        !line_proposes(clues, bl),
{
    lemma_required_is_min_len(clues, white());
}

/// No-op suppression (law): when a zero-slack line's unique placement is
/// already fully reflected on the board, the exact-fit rule proposes nothing.
pub proof fn lemma_no_op_suppression(clues: Seq<Clue>, bl: Seq<Pixel>)
    requires
        line_reflects(bl, forced_from(clues, white())),
    ensures
        !line_proposes(clues, bl),
{
}

/// The placement of the clues when the first clue needs no separator.
pub open spec fn forced_runs(clues: Seq<Clue>) -> Seq<Pixel> {
    if clues.len() == 0 {
        Seq::empty()
    } else {
        Seq::new(clues[0].count as nat, |k: int| Pixel::Color(clues[0].color)) + forced_from(
            clues.skip(1),
            clues[0].color,
        )
    }
}

/// The full placement is the separator-free one, with one Marked cell in
/// front exactly when the first clue continues the color laid down before.
pub proof fn lemma_forced_from_runs(clues: Seq<Clue>, prev: Color)
    ensures
        clues.len() > 0 && clues[0].color == prev ==> forced_from(clues, prev) == seq![
            Pixel::Cross,
        ] + forced_runs(clues),
        !(clues.len() > 0 && clues[0].color == prev) ==> forced_from(clues, prev) == forced_runs(
            clues,
        ),
{
    if clues.len() > 0 && clues[0].color == prev {
        assert(forced_from(clues, prev) =~= seq![Pixel::Cross] + forced_runs(clues));
    } else {
        assert(forced_from(clues, prev) =~= forced_runs(clues));
    }
}

/// The separator-free placement is as long as the formula's least length.
pub proof fn lemma_forced_runs_len(clues: Seq<Clue>)
    ensures
        forced_runs(clues).len() == min_required_len(clues),
        min_required_len(clues) >= 0,
{
    if clues.len() > 0 {
        lemma_forced_len(clues.skip(1), clues[0].color);
        lemma_required_is_min_len(clues.skip(1), clues[0].color);
        if clues.len() > 1 {
            assert(clues.skip(1)[0] == clues[1]);
        }
    }
}

/// Clues extracted from a line are never background-colored.
pub proof fn lemma_line_clues_not_white(s: Seq<Color>)
    ensures
        forall|i: int|
            0 <= i < line_clues(s).len() ==> (#[trigger] line_clues(s)[i]).color != white(),
    decreases s.len(),
{
    if s.len() == 0 {
    } else if s[0] == white() {
        lemma_line_clues_not_white(s.skip(1));
        assert(line_clues(s) == line_clues(s.skip(1)));
        assert forall|i: int|
            0 <= i < line_clues(s).len() implies (#[trigger] line_clues(s)[i]).color
            != white() by {
            assert(line_clues(s)[i] == line_clues(s.skip(1))[i]);
        }
    } else {
        let n = run_len(s, s[0]) as int;
        lemma_run_len_is_max_prefix(s, s[0]);
        lemma_line_clues_not_white(s.skip(n));
        assert(line_clues(s) == seq![Clue { color: s[0], count: run_len(s, s[0]) as u32 }]
            + line_clues(s.skip(n)));
        assert forall|i: int|
            0 <= i < line_clues(s).len() implies (#[trigger] line_clues(s)[i]).color
            != white() by {
            if i > 0 {
                assert(line_clues(s)[i] == line_clues(s.skip(n))[i - 1]);
            } else {
                assert(line_clues(s)[0] == (Clue { color: s[0], count: run_len(s, s[0]) as u32 }));
            }
        }
    }
}

/// The clues of a line always fit in it; a leading background pixel leaves
/// slack.
pub proof fn lemma_min_required_fits(s: Seq<Color>)
    requires
        s.len() <= u32::MAX,
    ensures
        min_required_len(line_clues(s)) <= s.len(),
        s.len() > 0 && s[0] == white() ==> min_required_len(line_clues(s)) < s.len(),
    decreases s.len(),
{
    if s.len() == 0 {
    } else if s[0] == white() {
        lemma_min_required_fits(s.skip(1));
    } else {
        let c = s[0];
        let n = run_len(s, c) as int;
        lemma_run_len_is_max_prefix(s, c);
        let t = s.skip(n);
        let clues = line_clues(s);
        let rest = line_clues(t);
        lemma_min_required_fits(t);
        assert(clues == seq![Clue { color: c, count: run_len(s, c) as u32 }] + rest);
        assert(clues.skip(1) =~= rest);
        assert(min_required_len(clues) == n + (if clues.len() > 1 && clues[1].color == c {
            1int
        } else {
            0int
        }) + min_required_len(rest));
        if clues.len() > 1 && clues[1].color == c {
            assert(clues[1] == rest[0]);
            // the next clue shares the color, so the next pixel must be a
            // background separator: a non-background pixel there would have
            // either extended this run or started the next clue differently
            if t.len() > 0 && t[0] != white() {
                let m = run_len(t, t[0]) as int;
                assert(rest == seq![Clue { color: t[0], count: run_len(t, t[0]) as u32 }]
                    + line_clues(t.skip(m)));
                assert(rest[0].color == t[0]);
                assert(t[0] == s[n]);
                assert(false);
            }
        }
    }
}

/// Slack-zero uniqueness: a line of pixels whose clues demand, without a
/// leading separator, exactly the line's length reads back cell by cell as
/// the separator-free placement of those clues.
pub proof fn lemma_unique_runs(s: Seq<Color>)
    requires
        s.len() <= u32::MAX,
        min_required_len(line_clues(s)) == s.len(),
    ensures
        forced_runs(line_clues(s)).len() == s.len(),
        forall|k: int|
            0 <= k < s.len() ==> effective(#[trigger] forced_runs(line_clues(s))[k]) == s[k],
    decreases s.len(),
{
    lemma_forced_runs_len(line_clues(s));
    if s.len() == 0 {
    } else if s[0] == white() {
        lemma_min_required_fits(s);
        assert(false);
    } else {
        let c = s[0];
        let n = run_len(s, c) as int;
        lemma_run_len_is_max_prefix(s, c);
        let t = s.skip(n);
        let clues = line_clues(s);
        let rest = line_clues(t);
        let run = Seq::new(run_len(s, c), |k: int| Pixel::Color(c));
        assert(clues == seq![Clue { color: c, count: run_len(s, c) as u32 }] + rest);
        assert(clues.skip(1) =~= rest);
        assert(clues[0].count == n);
        let pair: int = if clues.len() > 1 && clues[1].color == c {
            1
        } else {
            0
        };
        assert(min_required_len(clues) == n + pair + min_required_len(rest));
        lemma_required_is_min_len(rest, c);
        assert(rest.len() > 0 ==> rest[0] == clues[1]);
        assert(required_from(rest, c) == min_required_len(rest) + pair);
        assert(required_from(rest, c) == t.len());
        assert(forced_runs(clues) =~= run + forced_from(rest, c));
        lemma_forced_len(rest, c);
        // the run itself reads back as the line's first n pixels
        assert(forall|k: int| 0 <= k < n ==> s[k] == c);
        // the placement of the remaining clues reads back as the rest
        if t.len() == 0 {
        } else if t[0] != white() {
            let m = run_len(t, t[0]) as int;
            lemma_run_len_is_max_prefix(t, t[0]);
            assert(rest == seq![Clue { color: t[0], count: run_len(t, t[0]) as u32 }]
                + line_clues(t.skip(m)));
            assert(rest[0].color == t[0]);
            assert(t[0] == s[n]);
            assert(t[0] != c);
            assert(pair == 0);
            lemma_forced_from_runs(rest, c);
            lemma_unique_runs(t);
        } else {
            // a background pixel here can only be the separator between two
            // same-colored runs: anything else would leave slack
            assert(rest == line_clues(t.skip(1)));
            if !(rest.len() > 0 && rest[0].color == c) {
                lemma_min_required_fits(t);
                assert(min_required_len(rest) == t.len());
                assert(false);
            }
            assert(pair == 1);
            lemma_forced_from_runs(rest, c);
            assert(forced_from(rest, c) == seq![Pixel::Cross] + forced_runs(rest));
            lemma_unique_runs(t.skip(1));
            assert(min_required_len(line_clues(t.skip(1))) == t.skip(1).len());
            assert forall|m: int|
                0 <= m < t.len() implies effective(#[trigger] forced_from(rest, c)[m])
                == t[m] by {
                if m == 0 {
                    assert(forced_from(rest, c)[0] == Pixel::Cross);
                } else {
                    assert(forced_from(rest, c)[m] == forced_runs(line_clues(t.skip(1)))[m - 1]);
                    assert(t[m] == t.skip(1)[m - 1]);
                }
            }
        }
        assert forall|k: int|
            0 <= k < s.len() implies effective(#[trigger] forced_runs(clues)[k]) == s[k] by {
            if k < n {
                assert(forced_runs(clues)[k] == run[k]);
            } else {
                assert(forced_runs(clues)[k] == forced_from(rest, c)[k - n]);
                assert(s[k] == t[k - n]);
            }
        }
    }
}

/// Every colored cell of a placement carries one of the clues' colors, so a
/// placement of non-background clues never paints a cell background.
pub proof fn lemma_forced_cells_not_white(clues: Seq<Clue>, prev: Color)
    requires
        forall|i: int| 0 <= i < clues.len() ==> (#[trigger] clues[i]).color != white(),
    ensures
        forall|k: int|
            0 <= k < forced_from(clues, prev).len() ==> (#[trigger] forced_from(clues, prev)[k])
                != Pixel::Color(white()),
    decreases clues.len(),
{
    if clues.len() > 0 {
        let c = clues[0].color;
        let sep: Seq<Pixel> = if c == prev {
            seq![Pixel::Cross]
        } else {
            Seq::<Pixel>::empty()
        };
        let run = Seq::new(clues[0].count as nat, |k: int| Pixel::Color(c));
        let tail = forced_from(clues.skip(1), c);
        assert(forced_from(clues, prev) == sep + run + tail);
        assert(clues[0].color != white());
        assert forall|i: int|
            0 <= i < clues.skip(1).len() implies (#[trigger] clues.skip(1)[i]).color
            != white() by {
            assert(clues.skip(1)[i] == clues[i + 1]);
        }
        lemma_forced_cells_not_white(clues.skip(1), c);
        assert forall|k: int|
            0 <= k < forced_from(clues, prev).len() implies (#[trigger] forced_from(clues, prev)[k])
            != Pixel::Color(white()) by {
            if k < sep.len() {
                assert(forced_from(clues, prev)[k] == Pixel::Cross);
            } else if k < sep.len() + run.len() {
                assert(forced_from(clues, prev)[k] == run[k - sep.len()]);
            } else {
                assert(forced_from(clues, prev)[k] == tail[k - sep.len() - run.len()]);
            }
        }
    }
}

/// Slack-zero uniqueness (law): when the clues extracted from a line of
/// pixels demand exactly the line's length, the unique placement reads back,
/// cell by cell, as the line itself, Marked cells reading as background.
pub proof fn lemma_unique_placement(s: Seq<Color>)
    requires
        s.len() <= u32::MAX,
        required_from(line_clues(s), white()) == s.len(),
    ensures
        forced_from(line_clues(s), white()).len() == s.len(),
        forall|k: int|
            0 <= k < s.len() ==> effective(#[trigger] forced_from(line_clues(s), white())[k])
                == s[k],
{
    lemma_line_clues_not_white(s);
    lemma_required_is_min_len(line_clues(s), white());
    lemma_forced_from_runs(line_clues(s), white());
    lemma_unique_runs(s);
    lemma_forced_len(line_clues(s), white());
}

/// Walks the clues once and sums the least length they demand, giving up as
/// soon as the running sum exceeds the line length.
#[verifier::loop_isolation(false)]
fn line_required_len(clues_v: &Vec<Clue>, len: usize) -> (r: Option<usize>)
    ensures
        r matches Some(n) ==> n as int == required_from(clues_v@, white()) && n <= len,
        r is None ==> required_from(clues_v@, white()) > len,
{
    let ghost clues = clues_v@;
    let nclues = clues_v.len();
    let mut current_color = white_color();
    let mut counter: usize = 0;
    let mut ci: usize = 0;
    proof {
        assert(clues.skip(0) =~= clues);
    }
    while ci < nclues
        invariant
            ci <= nclues,
            counter <= len,
            current_color == seed_color_from(clues, white(), ci as int),
            required_from(clues, white()) == counter + required_from(
                clues.skip(ci as int),
                current_color,
            ),
        decreases nclues - ci,
    {
        let clue = clues_v[ci];
        let ghost rest = clues.skip(ci as int);
        proof {
            assert(rest[0] == clues[ci as int]);
            assert(rest.skip(1) =~= clues.skip(ci as int + 1));
            lemma_forced_len(clues.skip(ci as int + 1), clue.color);
            assert(required_from(rest, current_color) == (if clue.color == current_color {
                1int
            } else {
                0int
            }) + clue.count + required_from(clues.skip(ci as int + 1), clue.color));
        }
        let sep: usize = if clue.color == current_color {
            1
        } else {
            0
        };
        let room = len - counter;
        if sep > room {
            proof {
                assert(required_from(clues, white()) > len);
            }
            return None;
        }
        let cnt = clue.count as usize;
        if cnt > room - sep {
            proof {
                assert(required_from(clues, white()) > len);
            }
            return None;
        }
        counter = counter + sep + cnt;
        current_color = clue.color;
        ci = ci + 1;
    }
    proof {
        assert(clues.skip(nclues as int) =~= Seq::<Clue>::empty());
    }
    Some(counter)
}

impl FullLine {
    /// Decides the exact-fit rule for one line. Yields a proposition exactly
    /// when the clues fit with zero slack and some cell of the unique
    /// placement is not on the board yet; the proposition then assigns every
    /// cell of the line its forced value.
    #[verifier::loop_isolation(false)]
    #[verifier::rlimit(50)]
    pub fn get_proposition(&self, game_line: &GameLine) -> (r: Option<Proposition>)
        ensures
            r is Some <==> line_proposes(game_line.clues@, game_line.board_line@),
            r matches Some(p) ==> {
                &&& p.view == game_line.view
                &&& p.index == game_line.index
                &&& p.line@ == forced_from(game_line.clues@, white()).map_values(
                    |px: Pixel| Some(px),
                )
            },
    {
        let ghost clues = game_line.clues@;
        let ghost bl = game_line.board_line@;
        let ghost forced = forced_from(clues, white());
        let len = game_line.board_line.len();
        let nclues = game_line.clues.len();

        // How long the line must be for the clues to fit at all.
        let required = match line_required_len(game_line.clues, len) {
            None => {
                return None;
            },
            Some(n) => n,
        };
        if required != len {
            return None;
        }
        proof {
            assert(required_from(clues, white()) == len);
            lemma_forced_len(clues, white());
            assert(forced.len() == len);
        }

        // Zero slack: lay the unique placement down and watch for any cell
        // the board does not show yet.
        let mut proposition: Vec<Option<Pixel>> = Vec::new();
        let mut k0: usize = 0;
        while k0 < len
            invariant
                k0 <= len,
                proposition@.len() == k0,
                forall|k: int| 0 <= k < k0 ==> proposition@[k] == Some(Pixel::Cross),
            decreases len - k0,
        {
            proposition.push(Some(Pixel::Cross));
            k0 = k0 + 1;
        }

        let mut changes = false;
        let mut current_color = white_color();
        let mut index: usize = 0;
        let mut ci: usize = 0;
        proof {
            assert(forced.skip(0) =~= forced);
            assert(clues.skip(0) =~= clues);
        }
        while ci < nclues
            invariant
                ci <= nclues,
                index <= len,
                current_color == seed_color_from(clues, white(), ci as int),
                forced.skip(index as int) == forced_from(clues.skip(ci as int), current_color),
                proposition@.len() == len,
                forall|k: int| 0 <= k < index ==> proposition@[k] == Some(forced[k]),
                forall|k: int| index <= k < len ==> proposition@[k] == Some(Pixel::Cross),
                changes == !reflects_upto(bl, forced, index as int),
            decreases nclues - ci,
        {
            let clue = game_line.clues[ci];
            let ghost rest = clues.skip(ci as int);
            let ghost run = Seq::new(clue.count as nat, |k: int| Pixel::Color(clue.color));
            let ghost tail = forced_from(clues.skip(ci as int + 1), clue.color);
            proof {
                assert(rest[0] == clues[ci as int]);
                assert(rest.skip(1) =~= clues.skip(ci as int + 1));
                lemma_forced_len(clues.skip(ci as int + 1), clue.color);
            }
            if clue.color == current_color {
                // Two adjacent same-color runs: one forced separator cell.
                proof {
                    assert(forced_from(rest, current_color) =~= seq![Pixel::Cross] + run + tail);
                    assert(forced.skip(index as int) =~= seq![Pixel::Cross] + run + tail);
                    assert(forced.skip(index as int).len() >= 1);
                    assert(forced[index as int] == (seq![Pixel::Cross] + run + tail)[0]);
                    assert(forced.skip(index as int + 1) =~= run + tail) by {
                        assert forall|k2: int|
                            0 <= k2 < (run + tail).len() implies forced.skip(index as int + 1)[k2]
                            == (run + tail)[k2] by {
                            assert(forced.skip(index as int)[k2 + 1] == (seq![Pixel::Cross] + run
                                + tail)[k2 + 1]);
                        }
                        assert(forced.skip(index as int + 1).len() == (run + tail).len());
                    }
                    lemma_reflects_extend(bl, forced, index as int);
                }
                index = index + 1;
            } else {
                proof {
                    assert(forced_from(rest, current_color) =~= run + tail);
                    assert(forced.skip(index as int) =~= run + tail);
                }
            }
            let ghost index0 = index as int;
            let cnt = clue.count as usize;
            proof {
                assert(forced.skip(index0) == run + tail);
                assert(forced.skip(index0).len() == len - index0);
                assert(index0 + cnt <= len);
                assert forall|k: int|
                    index0 <= k < index0 + cnt implies forced[k] == Pixel::Color(clue.color) by {
                    assert(forced[k] == forced.skip(index0)[k - index0]);
                    assert((run + tail)[k - index0] == run[k - index0]);
                }
            }
            let mut j: usize = 0;
            while j < cnt
                invariant
                    j <= cnt,
                    index == index0 + j,
                    index0 + cnt <= len,
                    proposition@.len() == len,
                    forall|k: int| 0 <= k < index ==> proposition@[k] == Some(forced[k]),
                    forall|k: int| index <= k < len ==> proposition@[k] == Some(Pixel::Cross),
                    changes == !reflects_upto(bl, forced, index as int),
                decreases cnt - j,
            {
                let board_pixel = game_line.board_line[index];
                let mismatch: bool = match board_pixel {
                    Pixel::Color(c) => !(c == clue.color),
                    Pixel::Cross => true,
                };
                if mismatch {
                    changes = true;
                }
                proof {
                    lemma_reflects_extend(bl, forced, index as int);
                    assert(forced[index as int] == Pixel::Color(clue.color));
                    assert(bl[index as int] == board_pixel);
                    assert(mismatch == !(bl[index as int] == forced[index as int]));
                }
                proposition[index] = Some(Pixel::Color(clue.color));
                index = index + 1;
                j = j + 1;
            }
            proof {
                assert(forced.skip(index0 + cnt) =~= tail) by {
                    assert forall|k2: int|
                        0 <= k2 < tail.len() implies forced.skip(index0 + cnt)[k2]
                        == tail[k2] by {
                        assert(forced.skip(index0)[cnt + k2] == (run + tail)[cnt + k2]);
                    }
                    assert(forced.skip(index0 + cnt).len() == tail.len());
                }
            }
            current_color = clue.color;
            ci = ci + 1;
        }
        proof {
            assert(clues.skip(nclues as int) =~= Seq::<Clue>::empty());
            assert(forced.skip(index as int).len() == 0);
            assert(index == len);
            assert(changes == !line_reflects(bl, forced));
        }
        if changes {
            proof {
                assert(proposition@ =~= forced.map_values(|px: Pixel| Some(px)));
            }
            Some(Proposition { view: game_line.view, line: proposition, index: game_line.index })
        } else {
            None
        }
    }
}

} // verus!

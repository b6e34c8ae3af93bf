//! How the lines of a text are indented.
//!
//! The scanner of the Python grammar keeps a stack of indentations and saves it in a buffer
//! of fixed size. Each indentation on the stack comes from a line behind that of the one
//! below it, and is wider, so the stack fits where the widths of the lines rise rarely.
//! Widths are kept in 16 bits.

use crate::text;
use vstd::prelude::*;

verus! {

/// Where in a line a scan stands.
#[derive(Debug, Clone, Copy, PartialEq, Eq, Structural)]
pub enum Place {
    /// In front of everything but blanks.
    Margin,
    /// Behind a backslash that only blanks stand in front of.
    Backslash,
    /// Behind such a backslash and a carriage return.
    BackslashReturn,
    /// Behind something else.
    Inside,
}

/// The widths of the margins of a text so far.
pub struct MarginScan {
    pub place: Place,
    /// The width of the blanks since the margin began.
    pub total: int,
    /// The totals at which the lines of the margin begin: more than one where a line of
    /// blanks is continued by a backslash.
    pub starts: Seq<int>,
    /// The widths of the margins, in the order of their lines.
    pub widths: Seq<int>,
}

/// One more than the widest indentation.
pub const WIDTH_RANGE: u32 = 0x1_0000;

/// The width of a margin that began at a total.
pub open spec fn width_since(total: int, start: int) -> int {
    (total - start) % (WIDTH_RANGE as int)
}

/// The widths with those of a margin, measured from each of its lines.
pub open spec fn with_margin(widths: Seq<int>, total: int, starts: Seq<int>) -> Seq<int>
    decreases starts.len(),
{
    if starts.len() == 0 {
        widths
    } else {
        with_margin(widths, total, starts.drop_last()).push(width_since(total, starts.last()))
    }
}

/// A margin that begins.
pub open spec fn fresh_margin(scan: MarginScan) -> MarginScan {
    MarginScan { place: Place::Margin, total: 0, starts: seq![0], ..scan }
}

/// A margin that goes on in another line.
pub open spec fn continued_margin(scan: MarginScan) -> MarginScan {
    MarginScan { place: Place::Margin, starts: scan.starts.push(scan.total), ..scan }
}

/// A margin that is wider by `width`.
pub open spec fn wider_margin(scan: MarginScan, width: int) -> MarginScan {
    MarginScan { total: (scan.total + width) % (WIDTH_RANGE as int), ..scan }
}

/// A scan behind one more character.
pub open spec fn step(scan: MarginScan, c: char) -> MarginScan {
    if c == '\n' && (scan.place == Place::Backslash || scan.place == Place::BackslashReturn) {
        continued_margin(scan)
    } else if c == '\r' && scan.place == Place::Backslash {
        MarginScan { place: Place::BackslashReturn, ..scan }
    } else if c == '\n' || c == '\r' || c == '\u{c}' {
        fresh_margin(scan)
    } else if scan.place == Place::BackslashReturn {
        // The carriage return ended a line of its own.
        in_margin(fresh_margin(scan), c)
    } else if scan.place == Place::Margin {
        in_margin(scan, c)
    } else {
        MarginScan { place: Place::Inside, ..scan }
    }
}

/// A scan in a margin behind one more character that ends no line.
pub open spec fn in_margin(scan: MarginScan, c: char) -> MarginScan {
    if c == ' ' {
        wider_margin(scan, 1)
    } else if c == '\t' {
        wider_margin(scan, 8)
    } else if c == '\\' {
        MarginScan { place: Place::Backslash, ..scan }
    } else if c == '#' {
        MarginScan { place: Place::Inside, ..scan }
    } else {
        MarginScan {
            place: Place::Inside,
            widths: with_margin(scan.widths, scan.total, scan.starts),
            ..scan
        }
    }
}

/// The scan of a text. Its first line has no margin.
pub open spec fn scanned(source: Seq<char>) -> MarginScan
    decreases source.len(),
{
    if source.len() == 0 {
        MarginScan { place: Place::Inside, total: 0, starts: seq![], widths: seq![] }
    } else {
        step(scanned(source.drop_last()), source.last())
    }
}

/// How often widths rise at most: the length of the longest rising chain among them, each
/// of its widths behind the one before it, above zero and no wider than `limit`.
pub open spec fn rising(widths: Seq<int>, limit: int) -> nat
    decreases widths.len(),
{
    if widths.len() == 0 {
        0
    } else {
        let last = widths.last();
        let without = rising(widths.drop_last(), limit);
        if 0 < last <= limit && rising(widths.drop_last(), last - 1) + 1 > without {
            rising(widths.drop_last(), last - 1) + 1
        } else {
            without
        }
    }
}

/// A chain of indentations that is too long.
pub const MAX_RISES: usize = 384;

/// The indentations of a text rise by short chains only.
pub open spec fn few_rises(source: Seq<char>) -> bool {
    rising(scanned(source).widths, WIDTH_RANGE - 1) < MAX_RISES
}

/// The least width at which a chain of each length ends.
struct Chains {
    ends: Vec<u32>,
    /// There is a chain that is too long.
    long: bool,
}

/// The chains no wider than `limit` are as long as the `ends` say.
spec fn ends_at(ends: Seq<u32>, widths: Seq<int>, limit: int) -> bool {
    &&& rising(widths, limit) <= ends.len()
    &&& forall|k: int| 0 <= k < rising(widths, limit) ==> (#[trigger] ends[k]) <= limit
    &&& forall|k: int| rising(widths, limit) <= k < ends.len() ==> (#[trigger] ends[k]) > limit
}

impl Chains {
    spec fn holds(self, widths: Seq<int>) -> bool {
        if self.long {
            rising(widths, WIDTH_RANGE - 1) >= MAX_RISES
        } else {
            &&& self.ends@.len() < MAX_RISES
            &&& forall|limit: int| #![trigger ends_at(self.ends@, widths, limit)]
                0 <= limit < WIDTH_RANGE ==> ends_at(self.ends@, widths, limit)
        }
    }
}

fn note_width(chains: &mut Chains, width: u32, Ghost(widths): Ghost<Seq<int>>)
    requires
        old(chains).holds(widths),
        width < WIDTH_RANGE,
    ensures
        final(chains).holds(widths.push(width as int)),
{
    let ghost after = widths.push(width as int);
    proof {
        assert(after.drop_last() =~= widths);
        assert(after.last() == width as int);
    }
    if chains.long {
        return;
    }
    let ghost before = chains.ends@;
    if width == 0 {
        proof {
            assert forall|limit: int| 0 <= limit < WIDTH_RANGE implies #[trigger] ends_at(
                before,
                after,
                limit,
            ) by {
                assert(ends_at(before, widths, limit));
            }
        }
        return;
    }
    let mut place: usize = 0;
    while place < chains.ends.len() && chains.ends[place] < width
        invariant
            place <= chains.ends@.len(),
            forall|k: int| 0 <= k < place ==> (#[trigger] chains.ends@[k]) < width,
        decreases chains.ends@.len() - place,
    {
        place = place + 1;
    }
    proof {
        assert(ends_at(before, widths, width - 1));
        let here = rising(widths, width - 1) as int;
        if here < place {
            assert(before[here] > width - 1);
        }
        if place < here {
            assert(before[place as int] <= width - 1);
        }
        assert(here == place);
    }
    if place == chains.ends.len() {
        if place + 1 == MAX_RISES {
            proof {
                assert(ends_at(before, widths, WIDTH_RANGE - 1));
            }
            chains.long = true;
            return;
        }
        chains.ends.push(width);
    } else {
        chains.ends.set(place, width);
    }
    proof {
        let ends = chains.ends@;
        assert forall|limit: int| 0 <= limit < WIDTH_RANGE implies #[trigger] ends_at(
            ends,
            after,
            limit,
        ) by {
            assert(ends_at(before, widths, limit));
            assert(forall|k: int| 0 <= k < before.len() && k != place ==> ends[k] == before[k]);
            if width <= limit && rising(widths, limit) <= place {
                assert(rising(after, limit) == place + 1);
                assert(rising(widths, limit) == place) by {
                    if rising(widths, limit) < place {
                        let k = rising(widths, limit) as int;
                        assert(before[k] > limit);
                        assert(ends_at(before, widths, width - 1));
                        assert(before[k] <= width - 1);
                    }
                }
            }
        }
    }
}

fn note_margin(chains: &mut Chains, total: u32, starts: &[u32], Ghost(widths): Ghost<Seq<int>>)
    requires
        old(chains).holds(widths),
        total < WIDTH_RANGE,
        forall|k: int| 0 <= k < starts@.len() ==> (#[trigger] starts@[k]) < WIDTH_RANGE,
    ensures
        final(chains).holds(with_margin(widths, total as int, totals(starts@))),
{
    let ghost all = totals(starts@);
    let mut i: usize = 0;
    assert(all.take(0) =~= seq![]);
    while i < starts.len()
        invariant
            i <= starts@.len(),
            all == totals(starts@),
            total < WIDTH_RANGE,
            forall|k: int| 0 <= k < starts@.len() ==> (#[trigger] starts@[k]) < WIDTH_RANGE,
            chains.holds(with_margin(widths, total as int, all.take(i as int))),
        decreases starts@.len() - i,
    {
        let start: u32 = starts[i];
        let width: u32 = (total + WIDTH_RANGE - start) % WIDTH_RANGE;
        proof {
            assert(all.take(i + 1).drop_last() =~= all.take(i as int));
            assert(all.take(i + 1).last() == start as int);
            assert(width as int == width_since(total as int, start as int)) by (nonlinear_arith)
                requires
                    total < WIDTH_RANGE,
                    start < WIDTH_RANGE,
                    WIDTH_RANGE == 0x1_0000,
                    width == (total + WIDTH_RANGE - start) % (WIDTH_RANGE as int),
            ;
        }
        note_width(chains, width, Ghost(with_margin(widths, total as int, all.take(i as int))));
        i = i + 1;
    }
    assert(all.take(all.len() as int) =~= all);
}

spec fn totals(starts: Seq<u32>) -> Seq<int> {
    starts.map_values(|start: u32| start as int)
}

/// Report whether the indentations of a text rise by short chains only.
pub fn rises_rarely(source: &str) -> (r: bool)
    ensures
        r == few_rises(source@),
{
    let chars = text::chars_of(source);
    let mut chains = Chains { ends: Vec::new(), long: false };
    let mut place = Place::Inside;
    let mut total: u32 = 0;
    let mut starts: Vec<u32> = Vec::new();
    let mut i: usize = 0;
    proof {
        assert(source@.take(0) =~= seq![]);
        assert(totals(starts@) =~= seq![]);
        let none = Seq::<int>::empty();
        assert forall|limit: int| 0 <= limit < WIDTH_RANGE implies #[trigger] ends_at(
            chains.ends@,
            none,
            limit,
        ) by {}
    }
    while i < chars.len()
        invariant
            i <= chars@.len(),
            chars@ == source@,
            total < WIDTH_RANGE,
            forall|k: int| 0 <= k < starts@.len() ==> (#[trigger] starts@[k]) < WIDTH_RANGE,
            ({
                let scan = scanned(source@.take(i as int));
                &&& scan.place == place
                &&& scan.total == total
                &&& scan.starts == totals(starts@)
                &&& chains.holds(scan.widths)
            }),
        decreases chars@.len() - i,
    {
        let c = chars[i];
        let ghost scan = scanned(source@.take(i as int));
        proof {
            let next = source@.take(i + 1);
            assert(next.drop_last() =~= source@.take(i as int));
            assert(next.last() == c);
            assert(scanned(next) == step(scan, c));
        }
        if c == '\n' && (place == Place::Backslash || place == Place::BackslashReturn) {
            let ghost before = totals(starts@);
            starts.push(total);
            place = Place::Margin;
            assert(totals(starts@) =~= before.push(total as int));
        } else if c == '\r' && place == Place::Backslash {
            place = Place::BackslashReturn;
        } else if c == '\n' || c == '\r' || c == '\u{c}' {
            starts = one_start();
            total = 0;
            place = Place::Margin;
            assert(totals(starts@) =~= seq![0int]);
        } else if place == Place::BackslashReturn || place == Place::Margin {
            if place == Place::BackslashReturn {
                starts = one_start();
                total = 0;
                place = Place::Margin;
                assert(totals(starts@) =~= seq![0int]);
            }
            if c == ' ' {
                total = (total + 1) % WIDTH_RANGE;
            } else if c == '\t' {
                total = (total + 8) % WIDTH_RANGE;
            } else if c == '\\' {
                place = Place::Backslash;
            } else if c == '#' {
                place = Place::Inside;
            } else {
                note_margin(&mut chains, total, &starts, Ghost(scan.widths));
                place = Place::Inside;
            }
        } else {
            place = Place::Inside;
        }
        i = i + 1;
    }
    proof {
        assert(source@.take(source@.len() as int) =~= source@);
        if !chains.long {
            assert(ends_at(chains.ends@, scanned(source@).widths, WIDTH_RANGE - 1));
        }
    }
    !chains.long
}

fn one_start() -> (r: Vec<u32>)
    ensures
        r@ == seq![0u32],
{
    let mut starts: Vec<u32> = Vec::new();
    starts.push(0);
    starts
}

} // verus!

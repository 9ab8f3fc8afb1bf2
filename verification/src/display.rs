//! The text display: which lines have to be redrawn, and where.

use crate::text::{same_text, texts};
use vstd::prelude::*;

verus! {

/// How many lines the panel has room for.
pub const MAX_LINES: usize = 8;

/// The distance from one line to the next, in pixels.
pub const LINE_HEIGHT: i32 = 16;

/// Where the first line's characters stand.
pub const BASELINE_START: i32 = 14;

/// How high the characters are.
pub const FONT_HEIGHT: i32 = 13;

/// How wide the panel is.
pub const SCREEN_WIDTH: u32 = 240;

/// Line `i` of some lines, where there is one.
pub open spec fn line_at(lines: Seq<Seq<char>>, i: int) -> Option<Seq<char>> {
    if 0 <= i < lines.len() {
        Some(lines[i])
    } else {
        None
    }
}

/// The lines that fit on the panel.
pub open spec fn visible(lines: Seq<Seq<char>>) -> Seq<Seq<char>> {
    if lines.len() > MAX_LINES {
        lines.take(MAX_LINES as int)
    } else {
        lines
    }
}

/// Whether line `i` changes.
pub open spec fn changes(before: Seq<Seq<char>>, after: Seq<Seq<char>>, i: int) -> bool {
    line_at(before, i) != line_at(after, i)
}

/// One line to redraw: clear the strip that begins at `top`, then write `text`
/// on `baseline`, if there is any.
#[derive(Debug)]
pub struct LineUpdate {
    pub index: usize,
    pub top: i32,
    pub baseline: i32,
    pub text: Option<String>,
}

/// The text of an update.
pub open spec fn update_text(update: LineUpdate) -> Option<Seq<char>> {
    match update.text {
        Some(text) => Some(text@),
        None => None,
    }
}

/// The update redraws line `i` as `after` has it, at the place of that line.
pub open spec fn redraws(update: LineUpdate, after: Seq<Seq<char>>, i: int) -> bool {
    &&& update.index == i
    &&& update.baseline == BASELINE_START + i * LINE_HEIGHT
    &&& update.top == BASELINE_START + i * LINE_HEIGHT - FONT_HEIGHT - 1
    &&& update.top >= 0
    &&& update_text(update) == line_at(after, i)
}

/// The updates redraw the lines below `n` that change, each once, from the top
/// down, and no other.
pub open spec fn redraws_changes(
    updates: Seq<LineUpdate>,
    before: Seq<Seq<char>>,
    after: Seq<Seq<char>>,
    n: int,
) -> bool {
    &&& forall|k: int|
        #![trigger updates[k]]
        0 <= k < updates.len() ==> {
            &&& 0 <= updates[k].index < n
            &&& changes(before, after, updates[k].index as int)
            &&& redraws(updates[k], after, updates[k].index as int)
        }
    &&& forall|j: int, k: int|
        0 <= j < k < updates.len() ==> (#[trigger] updates[j]).index < (#[trigger] updates[k]).index
    &&& forall|i: int|
        0 <= i < n && #[trigger] changes(before, after, i) ==> exists|k: int|
            0 <= k < updates.len() && (#[trigger] updates[k]).index == i
}

/// What a redraw has to do, and what the panel shows once it is done.
#[derive(Debug)]
pub struct Redraw {
    pub updates: Vec<LineUpdate>,
    pub shown: Vec<String>,
}

/// What the panel shows.
#[derive(Debug)]
pub struct Screen {
    last_lines: Vec<String>,
}

impl View for Screen {
    type V = Seq<Seq<char>>;

    closed spec fn view(&self) -> Seq<Seq<char>> {
        texts(self.last_lines@)
    }
}

/// A panel never shows more lines than it has room for.
pub open spec fn fits(lines: Seq<Seq<char>>) -> bool {
    lines.len() <= MAX_LINES
}

/// A copy of the lines that fit on the panel.
fn copy_visible(lines: &Vec<String>) -> (copy: Vec<String>)
    ensures
        texts(copy@) == visible(texts(lines@)),
{
    let mut copy: Vec<String> = Vec::new();
    let mut i: usize = 0;
    while i < lines.len() && i < MAX_LINES
        invariant
            i <= lines@.len(),
            i <= MAX_LINES,
            copy@.len() == i,
            forall|k: int| 0 <= k < i ==> (#[trigger] copy@[k])@ == lines@[k]@,
        decreases lines.len() - i,
    {
        copy.push(lines[i].clone());
        i += 1;
    }
    assert(texts(copy@) =~= visible(texts(lines@)));
    copy
}

/// Whether line `i` differs between two sets of lines.
fn differs(before: &Vec<String>, after: &Vec<String>, i: usize) -> (yes: bool)
    ensures
        yes == changes(texts(before@), texts(after@), i as int),
{
    if i < before.len() && i < after.len() {
        !same_text(before[i].as_str(), after[i].as_str())
    } else {
        i < before.len() || i < after.len()
    }
}

impl Screen {
    /// An empty panel.
    pub fn new() -> (screen: Screen)
        ensures
            screen@ == Seq::<Seq<char>>::empty(),
            fits(screen@),
    {
        let screen = Screen { last_lines: Vec::new() };
        assert(screen@ =~= Seq::<Seq<char>>::empty());
        screen
    }

    /// What it takes to show `lines` in place of what the panel shows.
    pub fn plan(&self, lines: &Vec<String>) -> (redraw: Redraw)
        requires
            fits(self@),
        ensures
            texts(redraw.shown@) == visible(texts(lines@)),
            redraws_changes(
                redraw.updates@,
                self@,
                visible(texts(lines@)),
                MAX_LINES as int,
            ),
    {
        let shown = copy_visible(lines);
        let ghost before = self@;
        let ghost after = texts(shown@);
        assert(before.len() == self.last_lines@.len() && after.len() == shown@.len());
        let mut updates: Vec<LineUpdate> = Vec::new();
        let count: usize = if self.last_lines.len() > shown.len() {
            self.last_lines.len()
        } else {
            shown.len()
        };
        let mut i: usize = 0;
        while i < count
            invariant
                i <= count,
                count <= MAX_LINES,
                before == texts(self.last_lines@),
                after == texts(shown@),
                redraws_changes(updates@, before, after, i as int),
            decreases count - i,
        {
            if differs(&self.last_lines, &shown, i) {
                let baseline: i32 = BASELINE_START + (i as i32) * LINE_HEIGHT;
                let top: i32 = baseline - FONT_HEIGHT - 1;
                let text = if i < shown.len() {
                    Some(shown[i].clone())
                } else {
                    None
                };
                let ghost earlier = updates@;
                updates.push(
                    LineUpdate {
                        index: i,
                        top: if top > 0 {
                            top
                        } else {
                            0
                        },
                        baseline,
                        text,
                    },
                );
                proof {
                    assert(updates@[earlier.len() as int].index == i);
                    assert forall|j: int|
                        0 <= j < i + 1 && #[trigger] changes(before, after, j) implies exists|k: int|
                        0 <= k < updates@.len() && (#[trigger] updates@[k]).index == j by {
                        if j < i {
                            let k = choose|k: int|
                                0 <= k < earlier.len() && (#[trigger] earlier[k]).index == j;
                            assert(updates@[k].index == j);
                        }
                    }
                }
            }
            i += 1;
        }
        assert forall|j: int| count <= j < MAX_LINES implies !#[trigger] changes(
            before,
            after,
            j,
        ) by {}
        Redraw { updates, shown }
    }

    /// The redraw went through: the panel now shows these lines.
    pub fn commit(&mut self, shown: Vec<String>)
        requires
            fits(texts(shown@)),
        ensures
            final(self)@ == texts(shown@),
            fits(final(self)@),
    {
        self.last_lines = shown;
    }
}

// ---------------------------------------------------------------------------
// Laws
// ---------------------------------------------------------------------------

/// The panel as rows, each with its text or blank.
pub open spec fn rows_of(lines: Seq<Seq<char>>) -> Seq<Option<Seq<char>>> {
    Seq::new(MAX_LINES as nat, |i: int| line_at(lines, i))
}

/// The rows after some updates, in order.
pub open spec fn applied(
    rows: Seq<Option<Seq<char>>>,
    updates: Seq<LineUpdate>,
) -> Seq<Option<Seq<char>>>
    decreases updates.len(),
{
    if updates.len() == 0 {
        rows
    } else {
        let update = updates.last();
        applied(rows, updates.drop_last()).update(update.index as int, update_text(update))
    }
}

/// Redrawing only what changes is enough: carried out on a panel that shows the
/// old lines, the updates leave it showing the new ones.
pub proof fn law_redraw_shows_the_new_lines(
    updates: Seq<LineUpdate>,
    before: Seq<Seq<char>>,
    after: Seq<Seq<char>>,
)
    requires
        redraws_changes(updates, before, after, MAX_LINES as int),
    ensures
        applied(rows_of(before), updates) == rows_of(after),
{
    let rows = rows_of(before);
    lemma_applied(rows, updates, after);
    assert forall|i: int| 0 <= i < MAX_LINES implies applied(rows, updates)[i] == rows_of(
        after,
    )[i] by {
        if changes(before, after, i) {
            let k = choose|k: int| 0 <= k < updates.len() && (#[trigger] updates[k]).index == i;
            assert(updates[k].index == i);
        }
    }
    assert(applied(rows, updates) =~= rows_of(after));
}

/// A row that some update speaks of shows what that update wrote; every other
/// row is as it was.
proof fn lemma_applied(
    rows: Seq<Option<Seq<char>>>,
    updates: Seq<LineUpdate>,
    after: Seq<Seq<char>>,
)
    requires
        rows.len() == MAX_LINES,
        forall|k: int|
            #![trigger updates[k]]
            0 <= k < updates.len() ==> 0 <= updates[k].index < MAX_LINES && update_text(updates[k])
                == line_at(after, updates[k].index as int),
    ensures
        applied(rows, updates).len() == MAX_LINES,
        forall|i: int|
            0 <= i < MAX_LINES ==> #[trigger] applied(rows, updates)[i] == if exists|k: int|
                0 <= k < updates.len() && (#[trigger] updates[k]).index == i {
                line_at(after, i)
            } else {
                rows[i]
            },
    decreases updates.len(),
{
    if updates.len() > 0 {
        let shorter = updates.drop_last();
        assert forall|k: int|
            #![trigger shorter[k]]
            0 <= k < shorter.len() implies 0 <= shorter[k].index < MAX_LINES && update_text(
            shorter[k],
        ) == line_at(after, shorter[k].index as int) by {
            assert(shorter[k] == updates[k]);
        }
        lemma_applied(rows, shorter, after);
        assert forall|i: int| 0 <= i < MAX_LINES implies #[trigger] applied(rows, updates)[i]
            == if exists|k: int| 0 <= k < updates.len() && (#[trigger] updates[k]).index == i {
            line_at(after, i)
        } else {
            rows[i]
        } by {
            let last = updates.len() - 1;
            assert(updates[last] == updates.last());
            if exists|k: int| 0 <= k < updates.len() && (#[trigger] updates[k]).index == i {
                let k = choose|k: int| 0 <= k < updates.len() && (#[trigger] updates[k]).index == i;
                if k < last {
                    assert(shorter[k].index == i);
                }
            } else {
                assert(updates[last].index != i);
                assert forall|k: int| 0 <= k < shorter.len() implies (
                #[trigger] shorter[k]).index != i by {
                    assert(updates[k].index != i);
                }
            }
        }
    }
}

/// Line `i` is drawn in a strip of its own: 16 pixels for each line above it lie over its
/// strip, and its characters stand 14 pixels further down.
pub proof fn law_lines_have_their_own_strips(update: LineUpdate, after: Seq<Seq<char>>, i: int)
    requires
        redraws(update, after, i),
    ensures
        update.index == i,
        update.top == 16 * i,
        update.baseline == 16 * i + 14,
        i < after.len() ==> (update.text matches Some(text) && text@ == after[i]),
        i >= after.len() ==> update.text is None,
{
}

/// Of the lines to show the first eight are seen, as they are.
pub proof fn law_first_lines_are_seen(lines: Seq<Seq<char>>)
    ensures
        visible(lines).len() == if lines.len() < 8 {
            lines.len()
        } else {
            8
        },
        forall|i: int| 0 <= i < visible(lines).len() ==> #[trigger] visible(lines)[i] == lines[i],
{
}

/// Whatever the panel showed, after the updates row `i` shows line `i` of the new lines, and
/// is blank where there is none.
pub proof fn law_rows_show_their_lines(
    updates: Seq<LineUpdate>,
    before: Seq<Seq<char>>,
    after: Seq<Seq<char>>,
    i: int,
)
    requires
        redraws_changes(updates, before, after, MAX_LINES as int),
        0 <= i < 8,
    ensures
        rows_of(before).len() == 8,
        i < before.len() ==> rows_of(before)[i] == Some(before[i]),
        i >= before.len() ==> rows_of(before)[i] is None,
        i < after.len() ==> applied(rows_of(before), updates)[i] == Some(after[i]),
        i >= after.len() ==> applied(rows_of(before), updates)[i] is None,
{
    law_redraw_shows_the_new_lines(updates, before, after);
}

/// A line that is the same before and after is not drawn, and one that is not is drawn
/// once.
pub proof fn law_only_changed_lines_are_drawn(
    updates: Seq<LineUpdate>,
    before: Seq<Seq<char>>,
    after: Seq<Seq<char>>,
    i: int,
)
    requires
        redraws_changes(updates, before, after, MAX_LINES as int),
        0 <= i < 8,
    ensures
        i < before.len() && i < after.len() && before[i] == after[i] || i >= before.len() && i
            >= after.len() ==> forall|k: int|
            0 <= k < updates.len() ==> (#[trigger] updates[k]).index != i,
        i < before.len() && i < after.len() && before[i] != after[i] || (i < before.len()) != (i
            < after.len()) ==> exists|k: int|
            0 <= k < updates.len() && (#[trigger] updates[k]).index == i,
        forall|j: int, k: int|
            0 <= j < k < updates.len() ==> (#[trigger] updates[j]).index != (
            #[trigger] updates[k]).index,
{
    if changes(before, after, i) {
        let k = choose|k: int| 0 <= k < updates.len() && (#[trigger] updates[k]).index == i;
        assert(updates[k].index == i);
    }
}

/// Where nothing changes, nothing is drawn.
pub proof fn law_same_lines_draw_nothing(updates: Seq<LineUpdate>, lines: Seq<Seq<char>>)
    requires
        redraws_changes(updates, lines, lines, MAX_LINES as int),
    ensures
        updates.len() == 0,
{
    if updates.len() > 0 {
        assert(changes(lines, lines, updates[0].index as int));
    }
}

} // verus!

//! The rows that draw a catalog: a cursor mark, a selection mark and a label
//! for each position.
use vstd::prelude::*;

use crate::catalog::{names_of, flags_of, Catalog, CatalogView};

verus! {

/// The instructions drawn above the rows.
pub const HEADER: &'static str = "Используйте ↑↓ для навигации, ПРОБЕЛ или ENTER для выбора, ENTER на СОХРАНИТЬ/ОТМЕНА для завершения";

/// The label drawn for the save action.
pub const SAVE_LABEL: &'static str = "СОХРАНИТЬ СПИСОК";

/// The label drawn for the cancel action.
pub const CANCEL_LABEL: &'static str = "ОТМЕНА";

/// The message shown once the selection is written.
pub const SAVED_MESSAGE: &'static str = "Успешно! Список сохранен. Выход через 5 секунд...";

/// One row: `>` at the cursor, `*` between brackets when selected, then the label.
pub open spec fn row_text(at_cursor: bool, selected: bool, label: Seq<char>) -> Seq<char> {
    seq![
        if at_cursor { '>' } else { ' ' },
        ' ',
        '[',
        if selected { '*' } else { ' ' },
        ']',
        ' ',
    ] + label
}

/// The row at position `i` of `c`; the actions are never marked selected.
pub open spec fn row_of(c: CatalogView, i: int) -> Seq<char> {
    if i < c.names.len() {
        row_text(i == c.cursor, c.selected[i], c.names[i])
    } else if i == c.names.len() {
        row_text(i == c.cursor, false, SAVE_LABEL@)
    } else {
        row_text(i == c.cursor, false, CANCEL_LABEL@)
    }
}

/// What one redraw puts on the screen.
pub struct Frame {
    /// Clear the whole screen before drawing; otherwise the rows overwrite
    /// the previous ones in place.
    pub clear: bool,
    /// One row per position of the catalog.
    pub rows: Vec<String>,
    /// The row drawn in inverted colours: the cursor's.
    pub highlight: usize,
}

/// One row from its parts.
pub fn row(at_cursor: bool, selected: bool, label: &str) -> (r: String)
    ensures
        r@ == row_text(at_cursor, selected, label@),
{
    let mut out = String::new();
    out.append(if at_cursor { ">" } else { " " });
    out.append(" [");
    out.append(if selected { "*" } else { " " });
    out.append("] ");
    out.append(label);
    proof {
        reveal_strlit(">");
        reveal_strlit(" ");
        reveal_strlit(" [");
        reveal_strlit("*");
        reveal_strlit("] ");
    }
    assert(out@ =~= row_text(at_cursor, selected, label@));
    out
}

impl Catalog {
    /// The frame that draws this catalog; `full_repaint` clears the screen
    /// first, as for the first frame.
    pub fn frame(&self, full_repaint: bool) -> (r: Frame)
        requires
            self@.wf(),
        ensures
            r.clear == full_repaint,
            r.highlight == self@.cursor,
            r.rows@.len() == self@.len(),
            forall|i: int| 0 <= i < r.rows@.len() ==> (#[trigger] r.rows@[i])@ == row_of(self@, i),
    {
        let entries = self.entries();
        let n = entries.len();
        let cursor = self.cursor();
        let total = self.len();
        let mut rows: Vec<String> = Vec::new();
        let mut i: usize = 0;
        while i < total
            invariant
                self@.wf(),
                names_of(entries@) == self@.names,
                flags_of(entries@) == self@.selected,
                n == self@.names.len(),
                cursor == self@.cursor,
                total == self@.len(),
                i <= total,
                rows@.len() == i,
                forall|k: int| 0 <= k < i ==> (#[trigger] rows@[k])@ == row_of(self@, k),
            decreases total - i,
        {
            let r = if i < n {
                assert(names_of(entries@)[i as int] == entries@[i as int].name@);
                assert(flags_of(entries@)[i as int] == entries@[i as int].selected);
                row(i == cursor, entries[i].selected, entries[i].name.as_str())
            } else if i == n {
                row(i == cursor, false, SAVE_LABEL)
            } else {
                row(i == cursor, false, CANCEL_LABEL)
            };
            rows.push(r);
            i = i + 1;
        }
        Frame { clear: full_repaint, rows, highlight: cursor }
    }
}

} // verus!

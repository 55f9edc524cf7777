//! Shared data model: cell positions, the expression tree, the cell table,
//! and the surrounding application state.

use vstd::prelude::*;

verus! {

/// A cell position: a column letter paired with a row number. Positions are
/// compared structurally and uniquely identify a cell.
#[derive(Clone, Copy, PartialEq, Eq, Hash, Debug, Structural)]
pub struct Position {
    pub col: char,
    pub row: i32,
}

/// The expression tree a cell's text parses to: an integer literal, a
/// reference to another cell, or a single binary application of `+`, `-`,
/// `*` or `/` (held as its operator character).
#[derive(Debug, PartialEq)]
pub enum Expr {
    Number(i32),
    Reference(Position),
    Binary(Box<Expr>, char, Box<Expr>),
}

/// The mapping an association list of cells denotes: later entries shadow
/// earlier ones with the same position.
pub open spec fn entries_as_map(s: Seq<(Position, String)>) -> Map<Position, Seq<char>>
    decreases s.len(),
{
    if s.len() == 0 {
        Map::empty()
    } else {
        entries_as_map(s.drop_last()).insert(s.last().0, s.last().1@)
    }
}

/// No two entries share a position.
pub open spec fn keys_distinct(s: Seq<(Position, String)>) -> bool {
    forall|a: int, b: int| 0 <= a < b < s.len() ==> s[a].0 != s[b].0
}

/// The table of cells: each position maps to the raw text the user typed
/// there. Viewed as a `Map<Position, Seq<char>>`; the evaluator only reads
/// it.
pub struct CellTable {
    entries: Vec<(Position, String)>,
}

/// The denoted map has a finite domain, no larger than the entry list.
pub proof fn lemma_entries_as_map_finite(s: Seq<(Position, String)>)
    ensures
        entries_as_map(s).dom().finite(),
        entries_as_map(s).dom().len() <= s.len(),
    decreases s.len(),
{
    if s.len() > 0 {
        lemma_entries_as_map_finite(s.drop_last());
    }
}

/// With distinct keys, each entry's text is what the denoted map holds for
/// its position.
proof fn lemma_entries_as_map_get(s: Seq<(Position, String)>, k: int)
    requires
        0 <= k < s.len(),
        keys_distinct(s),
    ensures
        entries_as_map(s).dom().contains(s[k].0),
        entries_as_map(s)[s[k].0] == s[k].1@,
    decreases s.len(),
{
    if k < s.len() - 1 {
        assert(keys_distinct(s.drop_last()));
        lemma_entries_as_map_get(s.drop_last(), k);
    }
}

/// A position no entry carries is absent from the denoted map.
proof fn lemma_entries_as_map_absent(s: Seq<(Position, String)>, p: Position)
    requires
        forall|k: int| 0 <= k < s.len() ==> s[k].0 != p,
    ensures
        !entries_as_map(s).dom().contains(p),
    decreases s.len(),
{
    if s.len() > 0 {
        lemma_entries_as_map_absent(s.drop_last(), p);
    }
}

/// Overwriting one entry, key unchanged, updates the denoted map at that
/// position.
proof fn lemma_entries_as_map_update(
    s: Seq<(Position, String)>,
    u: Seq<(Position, String)>,
    k: int,
)
    requires
        0 <= k < s.len(),
        u.len() == s.len(),
        keys_distinct(s),
        u[k].0 == s[k].0,
        forall|m: int| 0 <= m < s.len() && m != k ==> u[m] == s[m],
    ensures
        entries_as_map(u) == entries_as_map(s).insert(u[k].0, u[k].1@),
    decreases s.len(),
{
    if k == s.len() - 1 {
        assert(u.drop_last() =~= s.drop_last());
        assert(entries_as_map(u) =~= entries_as_map(s).insert(u[k].0, u[k].1@));
    } else {
        assert(keys_distinct(s.drop_last()));
        lemma_entries_as_map_update(s.drop_last(), u.drop_last(), k);
        assert(u.last() == s.last());
        // the two inserts touch different keys, so they commute
        assert(s[k].0 != s.last().0);
        assert(entries_as_map(u) =~= entries_as_map(s).insert(u[k].0, u[k].1@));
    }
}

impl View for CellTable {
    type V = Map<Position, Seq<char>>;

    closed spec fn view(&self) -> Map<Position, Seq<char>> {
        entries_as_map(self.entries@)
    }
}

impl CellTable {
    /// Internal invariant: entry positions are distinct.
    pub closed spec fn wf(&self) -> bool {
        keys_distinct(self.entries@)
    }

    /// The domain of the table's map is finite.
    pub proof fn lemma_dom_finite(&self)
        ensures
            self@.dom().finite(),
    {
        lemma_entries_as_map_finite(self.entries@);
    }

    /// An empty table.
    pub fn new() -> (r: CellTable)
        ensures
            r.wf(),
            r@ == Map::<Position, Seq<char>>::empty(),
    {
        CellTable { entries: Vec::new() }
    }

    /// Store `text` as the raw content of the cell at `p`, replacing
    /// whatever the cell held before.
    pub fn insert(&mut self, p: Position, text: String)
        requires
            old(self).wf(),
        ensures
            final(self).wf(),
            final(self)@ == old(self)@.insert(p, text@),
    {
        let mut idx: usize = 0;
        while idx < self.entries.len()
            invariant
                idx <= self.entries@.len(),
                self == old(self),
                old(self).wf(),
                forall|k: int| 0 <= k < idx ==> self.entries@[k].0 != p,
            decreases self.entries@.len() - idx,
        {
            if self.entries[idx].0 == p {
                self.entries[idx] = (p, text);
                proof {
                    let s0 = old(self).entries@;
                    let u = self.entries@;
                    assert(forall|k: int|
                        0 <= k < s0.len() ==> u[k].0 == #[trigger] s0[k].0);
                    assert(keys_distinct(u));
                    lemma_entries_as_map_update(s0, u, idx as int);
                }
                return;
            }
            idx = idx + 1;
        }
        self.entries.push((p, text));
        proof {
            assert(self.entries@.drop_last() =~= old(self).entries@);
        }
    }

    /// Look up the raw text of the cell at `p`, if any.
    pub fn get(&self, p: Position) -> (r: Option<&String>)
        requires
            self.wf(),
        ensures
            match r {
                Some(text) => self@.dom().contains(p) && text@ == self@[p],
                None => !self@.dom().contains(p),
            },
    {
        let mut idx: usize = 0;
        while idx < self.entries.len()
            invariant
                idx <= self.entries@.len(),
                self.wf(),
                forall|k: int| 0 <= k < idx ==> self.entries@[k].0 != p,
            decreases self.entries@.len() - idx,
        {
            if self.entries[idx].0 == p {
                proof {
                    lemma_entries_as_map_get(self.entries@, idx as int);
                }
                return Some(&self.entries[idx].1);
            }
            idx = idx + 1;
        }
        proof {
            lemma_entries_as_map_absent(self.entries@, p);
        }
        None
    }
}

/// Rows shown in the grid.
pub const ROW_COUNT: i32 = 16;

/// Key code the grid treats as "move to the next row".
pub const ENTER_KEY_CODE: u32 = 12;

/// The application state around the core: the grid's rows and columns, the
/// cell being edited, and the table of raw cell text.
pub struct Model {
    pub rows: Vec<i32>,
    pub cols: Vec<char>,
    pub active: Option<Position>,
    pub cells: CellTable,
}

/// The events the application state changes with.
pub enum Msg {
    StartEdit(Position),
    KeyDown(u32),
    UpdateValue(Position, String),
}

/// The row after `r`: advanced by one and wrapped into the grid by the
/// remainder toward zero, as `%` behaves on machine integers.
pub open spec fn next_row(r: int) -> int {
    let k = r + 1;
    if k >= 0 {
        k % (ROW_COUNT as int)
    } else {
        -((-k) % (ROW_COUNT as int))
    }
}

impl Model {
    /// The initial state: rows 1 to 16, columns `A` to `L`, nothing being
    /// edited, and an empty cell table.
    pub fn init() -> (m: Model)
        ensures
            m.rows@.len() == ROW_COUNT as int,
            forall|k: int| 0 <= k < ROW_COUNT as int ==> m.rows@[k] == k + 1,
            m.cols@ == seq!['A', 'B', 'C', 'D', 'E', 'F', 'G', 'H', 'I', 'J', 'K', 'L'],
            m.active is None,
            m.cells.wf(),
            m.cells@ == Map::<Position, Seq<char>>::empty(),
    {
        let mut rows: Vec<i32> = Vec::new();
        let mut r: i32 = 1;
        while r <= ROW_COUNT
            invariant
                1 <= r <= ROW_COUNT + 1,
                rows@.len() == r - 1,
                forall|k: int| 0 <= k < r - 1 ==> rows@[k] == k + 1,
            decreases ROW_COUNT + 1 - r,
        {
            rows.push(r);
            r = r + 1;
        }
        let mut cols: Vec<char> = Vec::new();
        cols.push('A');
        cols.push('B');
        cols.push('C');
        cols.push('D');
        cols.push('E');
        cols.push('F');
        cols.push('G');
        cols.push('H');
        cols.push('I');
        cols.push('J');
        cols.push('K');
        cols.push('L');
        proof {
            assert(cols@ =~= seq!['A', 'B', 'C', 'D', 'E', 'F', 'G', 'H', 'I', 'J', 'K', 'L']);
        }
        Model { rows, cols, active: None, cells: CellTable::new() }
    }

    /// Handle one event: start editing a cell, move the active cell down a
    /// row on the configured key, or store new raw text for a cell.
    pub fn update(&mut self, msg: Msg)
        requires
            old(self).cells.wf(),
        ensures
            final(self).rows == old(self).rows,
            final(self).cols == old(self).cols,
            final(self).cells.wf(),
            match msg {
                Msg::StartEdit(p) => final(self).active == Some(p)
                    && final(self).cells == old(self).cells,
                Msg::KeyDown(key) => final(self).cells == old(self).cells
                    && (match old(self).active {
                    Some(p) => if key == ENTER_KEY_CODE {
                        final(self).active == Some(
                            Position { col: p.col, row: next_row(p.row as int) as i32 },
                        )
                    } else {
                        final(self).active == old(self).active
                    },
                    None => final(self).active == old(self).active,
                }),
                Msg::UpdateValue(p, text) => final(self).active == old(self).active
                    && final(self).cells@ == old(self).cells@.insert(p, text@),
            },
    {
        match msg {
            Msg::StartEdit(pos) => {
                self.active = Some(pos);
            },
            Msg::KeyDown(key_code) => {
                if key_code == ENTER_KEY_CODE {
                    match self.active {
                        Some(pos) => {
                            let k: i64 = pos.row as i64 + 1;
                            let q: u64 = if k >= 0 {
                                (k as u64) % (ROW_COUNT as u64)
                            } else {
                                ((-k) as u64) % (ROW_COUNT as u64)
                            };
                            let row: i32 = if k >= 0 {
                                q as i32
                            } else {
                                -(q as i32)
                            };
                            self.active = Some(Position { col: pos.col, row });
                        },
                        None => (),
                    }
                }
            },
            Msg::UpdateValue(pos, value) => {
                self.cells.insert(pos, value);
            },
        }
    }
}

} // verus!

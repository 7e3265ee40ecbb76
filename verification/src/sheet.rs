//! A bare grid of labelled cells with a cursor, used by the presentation
//! layer for header rows and column labels; it carries no computed slots.
use crate::state::{col_name_char, sat_add_spec, Address};
use crate::text::{char_string, dec_str, u64_string};
use vstd::prelude::*;

verus! {

/// How a cell's text is aligned when drawn.
pub enum Alignment {
    Left,
    Right,
}

/// The model of a labelled cell: its text and alignment.
pub struct LabelV {
    pub alignment: Alignment,
    pub value: Seq<char>,
}

/// One labelled cell.
pub struct DisplayCell {
    pub value: String,
    pub alignment: Alignment,
}

impl View for DisplayCell {
    type V = LabelV;

    open spec fn view(&self) -> LabelV {
        LabelV { alignment: self.alignment, value: self.value@ }
    }
}

impl DeepView for DisplayCell {
    type V = LabelV;

    open spec fn deep_view(&self) -> LabelV {
        self.view()
    }
}

/// The blank label.
pub open spec fn blank_label_v() -> LabelV {
    LabelV { alignment: Alignment::Left, value: Seq::<char>::empty() }
}

impl DisplayCell {
    /// A left-aligned cell holding `value`.
    pub fn new(value: String) -> (r: Self)
        ensures
            r@ == (LabelV { alignment: Alignment::Left, value: value@ }),
    {
        DisplayCell { value, alignment: Alignment::Left }
    }

    /// The blank cell.
    pub fn blank() -> (r: Self)
        ensures
            r@ == blank_label_v(),
    {
        DisplayCell::new(String::new())
    }

    /// The same cell with another alignment.
    pub fn with_alignment(self, alignment: Alignment) -> (r: Self)
        ensures
            r@ == (LabelV { alignment, value: self@.value }),
    {
        let mut cell = self;
        cell.alignment = alignment;
        cell
    }
}

/// The grid `g` grown so that (r, c) exists: missing rows are appended
/// holding their row-number label, and the target row is padded with blank
/// cells up to the target column.
pub open spec fn sheet_grown(g: Seq<Seq<LabelV>>, r: int, c: int) -> Seq<Seq<LabelV>> {
    let g1 = if r < g.len() {
        g
    } else {
        g + Seq::new(
            (r + 1 - g.len()) as nat,
            |i: int|
                seq![LabelV { alignment: Alignment::Left, value: dec_str((g.len() + i) as nat) }],
        )
    };
    let row = g1[r];
    let row1 = if c < row.len() {
        row
    } else {
        row + Seq::new((c + 1 - row.len()) as nat, |i: int| blank_label_v())
    };
    g1.update(r, row1)
}

/// The selection: a single cell.
pub enum Cursor {
    Single(Address),
}

impl Cursor {
    /// Moves the selection horizontally by `direction`, saturating at the
    /// edges of the coordinate space.
    pub fn move_h(&self, direction: i16) -> (r: Self)
        ensures
            r == (Cursor::Single(
                (
                    self->Single_0.0,
                    sat_add_spec(self->Single_0.1 as int, direction as int) as u16,
                ),
            )),
    {
        let Cursor::Single((row, c)) = self;
        Cursor::Single((*row, crate::state::sat_add(*c, direction)))
    }

    /// Moves the selection vertically by `direction`, saturating at the
    /// edges of the coordinate space.
    pub fn move_v(&self, direction: i16) -> (r: Self)
        ensures
            r == (Cursor::Single(
                (
                    sat_add_spec(self->Single_0.0 as int, direction as int) as u16,
                    self->Single_0.1,
                ),
            )),
    {
        let Cursor::Single((row, c)) = self;
        Cursor::Single((crate::state::sat_add(*row, direction), *c))
    }
}

/// A grid of labelled cells with a scroll position and a cursor.
pub struct Sheet {
    pub content: Vec<Vec<DisplayCell>>,
    pub scroll: Address,
    pub cursor: Cursor,
}

impl Sheet {
    /// A fresh sheet: a header row labelling the first `size - 1` columns,
    /// then one row per line labelled with its number, right aligned.
    pub fn blank(size: u8) -> (r: Sheet)
        ensures
            r.content.deep_view().len() == (if size >= 1 {
                size as int
            } else {
                1int
            }),
            r.content.deep_view()[0].len() == (if size >= 1 {
                size as int
            } else {
                1int
            }),
            r.content.deep_view()[0][0] == blank_label_v(),
            forall|j: int|
                1 <= j < size as int ==> #[trigger] r.content.deep_view()[0][j] == (LabelV {
                    alignment: Alignment::Left,
                    value: seq![col_name_char(j - 1)],
                }),
            forall|i: int|
                1 <= i < size as int ==> #[trigger] r.content.deep_view()[i] =~= seq![
                    LabelV { alignment: Alignment::Right, value: dec_str(i as nat) },
                ],
            r.scroll == (0u16, 0u16),
            r.cursor == (Cursor::Single((1u16, 1u16))),
    {
        let mut content: Vec<Vec<DisplayCell>> = Vec::new();
        let mut header_row: Vec<DisplayCell> = Vec::new();
        header_row.push(DisplayCell::blank());
        let mut i: u8 = 1;
        while i < size
            invariant
                1 <= i <= (if size >= 1 { size } else { 1u8 }),
                header_row.deep_view().len() == i as int,
                header_row.deep_view()[0] == blank_label_v(),
                forall|j: int|
                    1 <= j < i as int ==> #[trigger] header_row.deep_view()[j] == (LabelV {
                        alignment: Alignment::Left,
                        value: seq![col_name_char(j - 1)],
                    }),
            decreases size - i,
        {
            let ghost pre = header_row.deep_view();
            header_row.push(DisplayCell::new(Sheet::col_name(i - 1)));
            proof {
                assert(header_row.deep_view() =~= pre.push(
                    LabelV {
                        alignment: Alignment::Left,
                        value: seq![col_name_char(i - 1)],
                    },
                ));
            }
            i = i + 1;
        }
        content.push(header_row);
        let mut i2: u8 = 1;
        while i2 < size
            invariant
                1 <= i2 <= (if size >= 1 { size } else { 1u8 }),
                content.deep_view().len() == i2 as int,
                content.deep_view()[0].len() == (if size >= 1 { size as int } else { 1int }),
                content.deep_view()[0][0] == blank_label_v(),
                forall|j: int|
                    1 <= j < size as int ==> #[trigger] content.deep_view()[0][j] == (LabelV {
                        alignment: Alignment::Left,
                        value: seq![col_name_char(j - 1)],
                    }),
                forall|k: int|
                    1 <= k < i2 as int ==> #[trigger] content.deep_view()[k] =~= seq![
                        LabelV { alignment: Alignment::Right, value: dec_str(k as nat) },
                    ],
            decreases size - i2,
        {
            let ghost pre = content.deep_view();
            let mut row: Vec<DisplayCell> = Vec::new();
            row.push(DisplayCell::new(u64_string(i2 as u64)).with_alignment(Alignment::Right));
            proof {
                assert(row.deep_view() =~= seq![
                    LabelV { alignment: Alignment::Right, value: dec_str(i2 as nat) },
                ]);
            }
            content.push(row);
            proof {
                assert(content.deep_view() =~~= pre.push(row.deep_view()));
            }
            i2 = i2 + 1;
        }
        Sheet { content, scroll: (0, 0), cursor: Cursor::Single((1, 1)) }
    }

    /// The single-letter column label, repeating every 26 columns.
    pub fn col_name(i: u8) -> (r: String)
        ensures
            r@ =~= seq![col_name_char(i as int)],
    {
        let code: u8 = 64 + (i % 26);
        char_string(code as char)
    }

    /// Applies `f` to the cell at `addr` and stores the result there,
    /// growing the grid as needed: missing rows are appended holding their
    /// row-number label, and the target row is padded with blank cells.
    pub fn edit_at<F: Fn(&DisplayCell) -> DisplayCell>(&mut self, addr: Address, f: F)
        requires
            forall|x: &DisplayCell| #[trigger] call_requires(f, (x,)),
        ensures
            exists|x: DisplayCell, y: DisplayCell|
                {
                    let grown = sheet_grown(
                        old(self).content.deep_view(),
                        addr.0 as int,
                        addr.1 as int,
                    );
                    &&& x@ == grown[addr.0 as int][addr.1 as int]
                    &&& #[trigger] call_ensures(f, (&x,), y)
                    &&& final(self).content.deep_view() =~~= grown.update(
                        addr.0 as int,
                        grown[addr.0 as int].update(addr.1 as int, y@),
                    )
                },
            final(self).scroll == old(self).scroll,
            final(self).cursor == old(self).cursor,
    {
        let r = addr.0 as usize;
        let c = addr.1 as usize;
        let ghost g0 = self.content.deep_view();
        while self.content.len() <= r
            invariant
                r <= 0xffff,
                g0.len() <= self.content.deep_view().len(),
                g0.len() <= r ==> self.content.deep_view().len() <= r + 1,
                g0.len() > r ==> self.content.deep_view().len() == g0.len(),
                self.content.deep_view() =~~= g0 + Seq::new(
                    (self.content.deep_view().len() - g0.len()) as nat,
                    |i: int|
                        seq![
                            LabelV { alignment: Alignment::Left, value: dec_str((g0.len() + i) as nat) },
                        ],
                ),
                self.scroll == old(self).scroll,
                self.cursor == old(self).cursor,
            decreases r + 1 - self.content.len(),
        {
            let ghost pre = self.content.deep_view();
            let n = self.content.len();
            let mut label_row: Vec<DisplayCell> = Vec::new();
            label_row.push(DisplayCell::new(u64_string(n as u64)));
            self.content.push(label_row);
            proof {
                assert(self.content.deep_view() =~~= pre + seq![
                    seq![LabelV { alignment: Alignment::Left, value: dec_str(n as nat) }],
                ]);
                assert(self.content.deep_view() =~~= g0 + Seq::new(
                    (self.content.deep_view().len() - g0.len()) as nat,
                    |i: int|
                        seq![
                            LabelV { alignment: Alignment::Left, value: dec_str((g0.len() + i) as nat) },
                        ],
                ));
            }
        }
        let ghost g1 = self.content.deep_view();
        let ghost row0 = g1[r as int];
        let mut row: Vec<DisplayCell> = Vec::new();
        core::mem::swap(&mut row, &mut self.content[r]);
        while row.len() <= c
            invariant
                c <= 0xffff,
                row0.len() <= row.deep_view().len(),
                row0.len() <= c ==> row.deep_view().len() <= c + 1,
                row0.len() > c ==> row.deep_view().len() == row0.len(),
                row.deep_view() =~= row0 + Seq::new(
                    (row.deep_view().len() - row0.len()) as nat,
                    |i: int| blank_label_v(),
                ),
            decreases c + 1 - row.len(),
        {
            let ghost pre = row.deep_view();
            row.push(DisplayCell::blank());
            proof {
                assert(row.deep_view() =~= pre + seq![blank_label_v()]);
                assert(row.deep_view() =~= row0 + Seq::new(
                    (row.deep_view().len() - row0.len()) as nat,
                    |i: int| blank_label_v(),
                ));
            }
        }
        proof {
            let grown = sheet_grown(g0, addr.0 as int, addr.1 as int);
            assert(g1 =~~= (if (r as int) < g0.len() {
                g0
            } else {
                g0 + Seq::new(
                    (r + 1 - g0.len()) as nat,
                    |i: int|
                        seq![
                            LabelV { alignment: Alignment::Left, value: dec_str((g0.len() + i) as nat) },
                        ],
                )
            }));
            assert(row.deep_view() =~= (if (c as int) < row0.len() {
                row0
            } else {
                row0 + Seq::new((c + 1 - row0.len()) as nat, |i: int| blank_label_v())
            }));
            assert(grown =~~= g1.update(r as int, row.deep_view()));
        }
        let ghost gx: DisplayCell = row@[c as int];
        let y = f(&row[c]);
        let ghost gy: DisplayCell = y;
        row[c] = y;
        self.content[r] = row;
        proof {
            let grown = sheet_grown(g0, addr.0 as int, addr.1 as int);
            assert(gx@ == grown[addr.0 as int][addr.1 as int]);
            assert(call_ensures(f, (&gx,), gy));
            assert(self.content.deep_view() =~~= grown.update(
                addr.0 as int,
                grown[addr.0 as int].update(addr.1 as int, gy@),
            ));
        }
    }
}

} // verus!

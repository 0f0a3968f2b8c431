//! The two cell states: candidates narrowed by propagation, and the
//! tentative choices of the search.

use vstd::prelude::*;
use crate::lists::digit_list;

verus! {

/// A cell during propagation: a settled digit, or the digits still possible.
#[derive(Debug, PartialEq, Eq)]
pub enum PruneCell {
    Fixed(u8),
    Possibilities(Vec<u8>),
}

/// A cell during the search: a settled digit, a list of candidates not yet
/// tried, or a tentative choice among the candidates.
#[derive(Debug, PartialEq, Eq)]
pub enum SearchCell {
    Fixed(u8),
    Vacant(Vec<u8>),
    Filled(usize, Vec<u8>),
}

/// What a `PruneCell` holds.
pub enum Narrowing {
    Fixed(u8),
    Open(Seq<u8>),
}

/// What a `SearchCell` holds.
pub enum Choice {
    Fixed(u8),
    Vacant(Seq<u8>),
    Filled(int, Seq<u8>),
}

impl View for PruneCell {
    type V = Narrowing;

    open spec fn view(&self) -> Narrowing {
        match self {
            PruneCell::Fixed(d) => Narrowing::Fixed(*d),
            PruneCell::Possibilities(p) => Narrowing::Open(p@),
        }
    }
}

impl View for SearchCell {
    type V = Choice;

    open spec fn view(&self) -> Choice {
        match self {
            SearchCell::Fixed(d) => Choice::Fixed(*d),
            SearchCell::Vacant(p) => Choice::Vacant(p@),
            SearchCell::Filled(g, p) => Choice::Filled(*g as int, p@),
        }
    }
}

impl Narrowing {
    /// A settled digit is 1 to 9; open candidates are digits 1 to 9 in
    /// ascending order.
    pub open spec fn wf(self) -> bool {
        match self {
            Narrowing::Fixed(d) => 1 <= d <= 9,
            Narrowing::Open(p) => digit_list(p),
        }
    }

    /// Whether digit `d` may still stand in the cell.
    pub open spec fn admits(self, d: u8) -> bool {
        match self {
            Narrowing::Fixed(x) => x == d,
            Narrowing::Open(p) => p.contains(d),
        }
    }

    /// How far the cell is from being settled: nothing for a settled cell,
    /// else one more than the number of its candidates.
    pub open spec fn slack(self) -> nat {
        match self {
            Narrowing::Fixed(_) => 0,
            Narrowing::Open(p) => p.len() + 1,
        }
    }

    /// The cell as the search first meets it.
    pub open spec fn untried(self) -> Choice {
        match self {
            Narrowing::Fixed(d) => Choice::Fixed(d),
            Narrowing::Open(p) => Choice::Vacant(p),
        }
    }
}

impl Choice {
    /// Lists are candidate lists, settled digits are 1 to 9, and a choice
    /// points into its list.
    pub open spec fn wf(self) -> bool {
        match self {
            Choice::Fixed(d) => 1 <= d <= 9,
            Choice::Vacant(p) => digit_list(p),
            Choice::Filled(g, p) => digit_list(p) && 0 <= g < p.len(),
        }
    }

    /// The digit the cell shows: 0 while it is vacant.
    pub open spec fn shown(self) -> u8 {
        match self {
            Choice::Fixed(d) => d,
            Choice::Vacant(_) => 0,
            Choice::Filled(g, p) => p[g],
        }
    }

    /// The cell with any tentative choice taken back.
    pub open spec fn cleared(self) -> Choice {
        match self {
            Choice::Fixed(d) => Choice::Fixed(d),
            Choice::Vacant(p) => Choice::Vacant(p),
            Choice::Filled(_, p) => Choice::Vacant(p),
        }
    }

    /// Whether digit `d` may stand in the cell.
    pub open spec fn admits(self, d: u8) -> bool {
        match self {
            Choice::Fixed(x) => x == d,
            Choice::Vacant(p) => p.contains(d),
            Choice::Filled(_, p) => p.contains(d),
        }
    }
}

/// What the cells of a propagation grid hold.
pub open spec fn narrowings(grid: Seq<PruneCell>) -> Seq<Narrowing> {
    Seq::new(grid.len(), |i: int| grid[i]@)
}

/// What the cells of a search grid hold.
pub open spec fn choices(grid: Seq<SearchCell>) -> Seq<Choice> {
    Seq::new(grid.len(), |i: int| grid[i]@)
}

/// The digits a search grid shows, 0 for a vacant cell.
pub open spec fn shown_digits(cells: Seq<Choice>) -> Seq<u8> {
    Seq::new(cells.len(), |i: int| cells[i].shown())
}

/// A full grid of well-formed propagation cells.
pub open spec fn narrowings_wf(cells: Seq<Narrowing>) -> bool {
    &&& cells.len() == 81
    &&& forall|i: int| 0 <= i < 81 ==> (#[trigger] cells[i]).wf()
}

/// A full grid of well-formed search cells.
pub open spec fn choices_wf(cells: Seq<Choice>) -> bool {
    &&& cells.len() == 81
    &&& forall|i: int| 0 <= i < 81 ==> (#[trigger] cells[i]).wf()
}

} // verus!

//! Spreadsheet cell evaluation engine.
//!
//! Each cell holds an expression over trytes and other cells; evaluation
//! follows references up to a configured depth.

use vstd::prelude::*;
use crate::wasm_bridge::{Tryte, clamp_tryte, sign, zero_tryte, tryte_value_round_trip};
use crate::wasm_config::WasmConfig;

verus! {

/// A cell reference (row, col).
pub type CellRef = (u32, u32);

/// Types of expressions a cell can contain.
#[derive(Debug, Clone, Copy)]
pub enum CellExpr {
    /// Literal tryte value.
    Literal(Tryte),
    /// Reference to another cell.
    Ref(CellRef),
    /// Sum of two cell references.
    Sum(CellRef, CellRef),
    /// Product of two cell references.
    Product(CellRef, CellRef),
    /// Threshold gate: if first ref > second ref, produce Pos; if < Neg; else Zero.
    Threshold(CellRef, CellRef),
}

/// A spreadsheet cell — a tiny ternary agent.
#[derive(Debug, Clone)]
pub struct Cell {
    pub row: u32,
    pub col: u32,
    pub expr: CellExpr,
    pub cached_value: Tryte,
    pub dirty: bool,
    pub generation: u32,
}

/// A new cell: value zero, dirty, generation 0.
pub open spec fn fresh_cell(row: u32, col: u32, expr: CellExpr) -> Cell {
    Cell { row, col, expr, cached_value: zero_tryte(), dirty: true, generation: 0 }
}

impl Cell {
    pub fn new(row: u32, col: u32, expr: CellExpr) -> (r: Self)
        ensures
            r == fresh_cell(row, col, expr),
    {
        Self { row, col, expr, cached_value: Tryte::zero(), dirty: true, generation: 0 }
    }

    pub fn ref_key(&self) -> (r: CellRef)
        ensures
            r == (self.row, self.col),
    {
        (self.row, self.col)
    }
}

/// A cell marked dirty.
pub open spec fn marked_dirty(c: Cell) -> Cell {
    Cell { dirty: true, ..c }
}

/// A cell that caches `v` and is no longer dirty.
pub open spec fn with_cached(c: Cell, v: Tryte) -> Cell {
    Cell { cached_value: v, dirty: false, ..c }
}

/// A cell that holds the literal `t` and is dirty.
pub open spec fn with_literal(c: Cell, t: Tryte) -> Cell {
    Cell { expr: CellExpr::Literal(t), dirty: true, ..c }
}

/// A cell given a new expression: dirty, one generation on.
pub open spec fn with_expr(c: Cell, e: CellExpr) -> Cell {
    Cell { expr: e, dirty: true, generation: (c.generation + 1) as u32, ..c }
}

/// The index of the first cell at or after `i` with the given key, if any.
pub open spec fn find_from(cells: Seq<Cell>, key: CellRef, i: int) -> Option<int>
    decreases cells.len() - i,
{
    if i < 0 || i >= cells.len() {
        None
    } else if (cells[i].row, cells[i].col) == key {
        Some(i)
    } else {
        find_from(cells, key, i + 1)
    }
}

/// What a search from position `i` finds: the first cell from there with
/// the key, or no cell from there has it.
pub proof fn find_from_facts(cells: Seq<Cell>, key: CellRef, i: int)
    requires
        0 <= i,
    ensures
        match find_from(cells, key, i) {
            Some(j) => i <= j < cells.len() && (cells[j].row, cells[j].col) == key && forall|k: int|
                i <= k < j ==> (#[trigger] cells[k].row, cells[k].col) != key,
            None => forall|k: int| i <= k < cells.len() ==> (#[trigger] cells[k].row, cells[k].col) != key,
        },
    decreases cells.len() - i,
{
    if i < cells.len() && (cells[i].row, cells[i].col) != key {
        find_from_facts(cells, key, i + 1);
    }
}

/// The index of the first cell with the given key, if any.
pub open spec fn find_first(cells: Seq<Cell>, key: CellRef) -> Option<int> {
    find_from(cells, key, 0)
}

/// The value an expression evaluates to at the given depth: 0 once the
/// depth passes `max_depth`, and a reference to a missing cell reads 0.
pub open spec fn eval_value(cells: Seq<Cell>, max_depth: u32, expr: CellExpr, depth: int) -> int
    decreases max_depth + 1 - depth,
{
    if depth > max_depth {
        0
    } else {
        match expr {
            CellExpr::Literal(t) => t.value(),
            CellExpr::Ref(key) => match find_first(cells, key) {
                Some(i) => eval_value(cells, max_depth, cells[i].expr, depth + 1),
                None => 0,
            },
            CellExpr::Sum(a, b) => clamp_tryte(
                eval_value(cells, max_depth, CellExpr::Ref(a), depth + 1) + eval_value(
                    cells,
                    max_depth,
                    CellExpr::Ref(b),
                    depth + 1,
                ),
            ),
            CellExpr::Product(a, b) => clamp_tryte(
                eval_value(cells, max_depth, CellExpr::Ref(a), depth + 1) * eval_value(
                    cells,
                    max_depth,
                    CellExpr::Ref(b),
                    depth + 1,
                ),
            ),
            CellExpr::Threshold(a, b) => sign(
                eval_value(cells, max_depth, CellExpr::Ref(a), depth + 1) - eval_value(
                    cells,
                    max_depth,
                    CellExpr::Ref(b),
                    depth + 1,
                ),
            ),
        }
    }
}

/// Every value an expression can evaluate to lies in the tryte range.
pub proof fn eval_value_in_range(cells: Seq<Cell>, max_depth: u32, expr: CellExpr, depth: int)
    ensures
        -364 <= eval_value(cells, max_depth, expr, depth) <= 364,
    decreases max_depth + 1 - depth,
{
    if depth <= max_depth {
        match expr {
            CellExpr::Literal(t) => {
                tryte_value_round_trip(t, t);
            },
            CellExpr::Ref(key) => {
                if let Some(i) = find_first(cells, key) {
                    eval_value_in_range(cells, max_depth, cells[i].expr, depth + 1);
                }
            },
            _ => {},
        }
    }
}

/// Two cell sequences with the same keys and expressions, in the same order
/// (their cached values and flags may differ).
pub open spec fn same_formulas(a: Seq<Cell>, b: Seq<Cell>) -> bool {
    &&& a.len() == b.len()
    &&& forall|i: int| 0 <= i < a.len() ==> #[trigger] a[i].row == b[i].row && a[i].col == b[i].col && a[i].expr == b[i].expr
}

proof fn lemma_find_same_formulas(a: Seq<Cell>, b: Seq<Cell>, key: CellRef, i: int)
    requires
        same_formulas(a, b),
    ensures
        find_from(a, key, i) == find_from(b, key, i),
    decreases a.len() - i,
{
    if 0 <= i < a.len() {
        assert(a[i].row == b[i].row && a[i].col == b[i].col);
        lemma_find_same_formulas(a, b, key, i + 1);
    }
}

/// Evaluation reads only the cells' keys and expressions, never a cached
/// value or a dirty flag.
pub proof fn eval_reads_formulas_only(a: Seq<Cell>, b: Seq<Cell>, max_depth: u32, expr: CellExpr, depth: int)
    requires
        same_formulas(a, b),
    ensures
        eval_value(a, max_depth, expr, depth) == eval_value(b, max_depth, expr, depth),
    decreases max_depth + 1 - depth,
{
    if depth <= max_depth {
        match expr {
            CellExpr::Literal(_) => {},
            CellExpr::Ref(key) => {
                lemma_find_same_formulas(a, b, key, 0);
                if let Some(i) = find_first(a, key) {
                    find_from_facts(a, key, 0);
                    assert(a[i].expr == b[i].expr);
                    eval_reads_formulas_only(a, b, max_depth, a[i].expr, depth + 1);
                }
            },
            CellExpr::Sum(x, y) | CellExpr::Product(x, y) | CellExpr::Threshold(x, y) => {
                eval_reads_formulas_only(a, b, max_depth, CellExpr::Ref(x), depth + 1);
                eval_reads_formulas_only(a, b, max_depth, CellExpr::Ref(y), depth + 1);
            },
        }
    }
}

/// `new` is `old` with the whole grid evaluated: same cells, none dirty,
/// and every cell caches the value its expression evaluates to from
/// depth 0.
pub open spec fn evaluation_of(old: Seq<Cell>, new: Seq<Cell>, max_depth: u32) -> bool {
    &&& new.len() == old.len()
    &&& forall|i: int| 0 <= i < old.len() ==> {
        &&& #[trigger] new[i] == with_cached(old[i], new[i].cached_value)
        &&& new[i].cached_value.value() == eval_value(old, max_depth, old[i].expr, 0)
    }
}

/// `new` is `old` with the values imported in row-major order: each of the
/// first `values.len()` cells becomes a dirty literal of its value.
pub open spec fn import_of(old: Seq<Cell>, values: Seq<Tryte>, new: Seq<Cell>) -> bool {
    &&& new.len() == old.len()
    &&& forall|i: int| 0 <= i < old.len() ==> #[trigger] new[i] == if i < values.len() {
        with_literal(old[i], values[i])
    } else {
        old[i]
    }
}

/// After an evaluation every cell agrees with its formula in the cells as
/// they now stand, none is dirty, and evaluating again changes nothing.
pub proof fn evaluation_settles(a: Seq<Cell>, b: Seq<Cell>, c: Seq<Cell>, max_depth: u32)
    requires
        evaluation_of(a, b, max_depth),
        evaluation_of(b, c, max_depth),
    ensures
        forall|i: int| 0 <= i < b.len() ==> !(#[trigger] b[i].dirty),
        forall|i: int| 0 <= i < b.len() ==> (#[trigger] b[i]).cached_value.value() == eval_value(b, max_depth, b[i].expr, 0),
        c == b,
{
    assert(same_formulas(a, b)) by {
        assert forall|i: int| 0 <= i < a.len() implies #[trigger] a[i].row == b[i].row && a[i].col == b[i].col && a[i].expr == b[i].expr by {
            assert(b[i] == with_cached(a[i], b[i].cached_value));
        }
    }
    assert forall|i: int| 0 <= i < b.len() implies (#[trigger] b[i]).cached_value.value() == eval_value(b, max_depth, b[i].expr, 0) by {
        assert(b[i] == with_cached(a[i], b[i].cached_value));
        eval_reads_formulas_only(a, b, max_depth, a[i].expr, 0);
    }
    assert forall|i: int| 0 <= i < b.len() implies c[i] == b[i] by {
        assert(b[i] == with_cached(a[i], b[i].cached_value));
        assert(c[i] == with_cached(b[i], c[i].cached_value));
        eval_reads_formulas_only(a, b, max_depth, a[i].expr, 0);
        tryte_value_round_trip(b[i].cached_value, c[i].cached_value);
    }
    assert(c =~= b);
}

/// Importing the values that were exported and evaluating gives every cell
/// back the value it had.
pub proof fn export_import_round_trip(
    a: Seq<Cell>,
    values: Seq<Tryte>,
    b: Seq<Cell>,
    c: Seq<Cell>,
    max_depth: u32,
)
    requires
        values.len() == a.len(),
        forall|i: int| 0 <= i < a.len() ==> values[i] == #[trigger] a[i].cached_value,
        import_of(a, values, b),
        evaluation_of(b, c, max_depth),
    ensures
        forall|i: int| 0 <= i < a.len() ==> #[trigger] c[i].cached_value == a[i].cached_value,
{
    assert forall|i: int| 0 <= i < a.len() implies #[trigger] c[i].cached_value == a[i].cached_value by {
        assert(b[i].expr == CellExpr::Literal(values[i]));
        assert(b[i].dirty);
        tryte_value_round_trip(a[i].cached_value, c[i].cached_value);
    }
}

/// What an expression evaluates to within the depth limit, said of the
/// values of the cells it refers to (read one level deeper): a literal is
/// its own value; a reference reads the first cell with the key, or 0 when
/// no cell has it; a sum and a product are the exact sum and product when
/// that lies in -364..=364 and the nearest bound otherwise; a threshold is
/// +1, -1 or 0 as the first value is greater than, less than or equal to
/// the second (as signed integers). Past the depth limit every expression
/// reads 0.
pub proof fn eval_law(cells: Seq<Cell>, max_depth: u32, expr: CellExpr, depth: int)
    ensures
        -364 <= eval_value(cells, max_depth, expr, depth) <= 364,
        depth > max_depth ==> eval_value(cells, max_depth, expr, depth) == 0,
        0 <= depth <= max_depth ==> {
            let r = eval_value(cells, max_depth, expr, depth);
            match expr {
                CellExpr::Literal(t) => r == t.value(),
                CellExpr::Ref(key) => {
                    &&& (forall|k: int| 0 <= k < cells.len() ==> (#[trigger] cells[k].row, cells[k].col) != key) ==> r == 0
                    &&& forall|k: int|
                        0 <= k < cells.len() && (#[trigger] cells[k].row, cells[k].col) == key && (forall|j: int|
                            0 <= j < k ==> (#[trigger] cells[j].row, cells[j].col) != key) ==> r == eval_value(
                            cells,
                            max_depth,
                            cells[k].expr,
                            depth + 1,
                        )
                },
                CellExpr::Sum(a, b) => {
                    let s = eval_value(cells, max_depth, CellExpr::Ref(a), depth + 1) + eval_value(cells, max_depth, CellExpr::Ref(b), depth + 1);
                    &&& (-364 <= s <= 364 ==> r == s)
                    &&& (s > 364 ==> r == 364)
                    &&& (s < -364 ==> r == -364)
                },
                CellExpr::Product(a, b) => {
                    let p = eval_value(cells, max_depth, CellExpr::Ref(a), depth + 1) * eval_value(cells, max_depth, CellExpr::Ref(b), depth + 1);
                    &&& (-364 <= p <= 364 ==> r == p)
                    &&& (p > 364 ==> r == 364)
                    &&& (p < -364 ==> r == -364)
                },
                CellExpr::Threshold(a, b) => {
                    let va = eval_value(cells, max_depth, CellExpr::Ref(a), depth + 1);
                    let vb = eval_value(cells, max_depth, CellExpr::Ref(b), depth + 1);
                    &&& (r == 1 <==> va > vb)
                    &&& (r == -1 <==> va < vb)
                    &&& (r == 0 <==> va == vb)
                },
            }
        },
{
    eval_value_in_range(cells, max_depth, expr, depth);
    if 0 <= depth <= max_depth {
        if let CellExpr::Ref(key) = expr {
            find_from_facts(cells, key, 0);
            assert forall|k: int|
                0 <= k < cells.len() && (#[trigger] cells[k].row, cells[k].col) == key && (forall|j: int|
                    0 <= j < k ==> (#[trigger] cells[j].row, cells[j].col) != key) implies find_first(cells, key) == Some(k) by {
                match find_first(cells, key) {
                    Some(m) => {
                        if m < k {
                            assert((cells[m].row, cells[m].col) != key);
                        } else if m > k {
                            assert((cells[k].row, cells[k].col) != key);
                        }
                    },
                    None => {
                        assert((cells[k].row, cells[k].col) != key);
                    },
                }
            }
        }
    }
}

/// A threshold between two references is antisymmetric: swapping them
/// negates the result.
pub proof fn threshold_antisymmetric(cells: Seq<Cell>, max_depth: u32, a: CellRef, b: CellRef, depth: int)
    ensures
        eval_value(cells, max_depth, CellExpr::Threshold(a, b), depth) == -eval_value(
            cells,
            max_depth,
            CellExpr::Threshold(b, a),
            depth,
        ),
{
    eval_law(cells, max_depth, CellExpr::Threshold(a, b), depth);
    eval_law(cells, max_depth, CellExpr::Threshold(b, a), depth);
}

/// Importing writes a literal of each value into the cell at the same
/// position (row-major), making it dirty and keeping its key, cached value
/// and generation; every cell past the values is left exactly as it was,
/// and importing no values changes nothing.
pub proof fn import_law(old: Seq<Cell>, values: Seq<Tryte>, new: Seq<Cell>)
    requires
        import_of(old, values, new),
    ensures
        new.len() == old.len(),
        forall|i: int| values.len() <= i < old.len() ==> #[trigger] new[i] == old[i],
        forall|i: int|
            0 <= i < old.len() && i < values.len() ==> {
                &&& (#[trigger] new[i]).expr == CellExpr::Literal(values[i])
                &&& new[i].dirty
                &&& new[i].row == old[i].row
                &&& new[i].col == old[i].col
                &&& new[i].cached_value == old[i].cached_value
                &&& new[i].generation == old[i].generation
            },
        values.len() == 0 ==> new == old,
{
    if values.len() == 0 {
        assert(new =~= old);
    }
}

/// Setting a cell changes only the first cell with its key, or appends a
/// new cell when none has it: that cell takes the new expression, becomes
/// dirty and moves up one generation, keeping its key and cached value;
/// a new cell starts dirty at generation 0 with cached value 0; every other
/// cell is left exactly as it was.
pub proof fn set_cell_law(old: Seq<Cell>, row: u32, col: u32, expr: CellExpr, new: Seq<Cell>)
    requires
        new == match find_first(old, (row, col)) {
            Some(i) => old.update(i, with_expr(old[i], expr)),
            None => old.push(fresh_cell(row, col, expr)),
        },
        match find_first(old, (row, col)) {
            Some(i) => old[i].generation < u32::MAX,
            None => true,
        },
    ensures
        forall|k: int|
            0 <= k < old.len() && (#[trigger] old[k].row, old[k].col) == (row, col) && (forall|j: int|
                0 <= j < k ==> (#[trigger] old[j].row, old[j].col) != (row, col)) ==> {
                &&& new.len() == old.len()
                &&& new[k].expr == expr
                &&& new[k].dirty
                &&& new[k].generation == old[k].generation + 1
                &&& new[k].row == row && new[k].col == col
                &&& new[k].cached_value == old[k].cached_value
                &&& forall|m: int| 0 <= m < old.len() && m != k ==> #[trigger] new[m] == old[m]
            },
        (forall|k: int| 0 <= k < old.len() ==> (#[trigger] old[k].row, old[k].col) != (row, col)) ==> {
            &&& new.len() == old.len() + 1
            &&& forall|m: int| 0 <= m < old.len() ==> #[trigger] new[m] == old[m]
            &&& new[old.len() as int].row == row && new[old.len() as int].col == col
            &&& new[old.len() as int].expr == expr
            &&& new[old.len() as int].dirty
            &&& new[old.len() as int].generation == 0
            &&& new[old.len() as int].cached_value.value() == 0
        },
{
    find_from_facts(old, (row, col), 0);
    assert forall|k: int|
        0 <= k < old.len() && (#[trigger] old[k].row, old[k].col) == (row, col) && (forall|j: int|
            0 <= j < k ==> (#[trigger] old[j].row, old[j].col) != (row, col)) implies find_first(old, (row, col)) == Some(k) by {
        match find_first(old, (row, col)) {
            Some(m) => {
                if m < k {
                    assert((old[m].row, old[m].col) != (row, col));
                } else if m > k {
                    assert((old[k].row, old[k].col) != (row, col));
                }
            },
            None => {
                assert((old[k].row, old[k].col) != (row, col));
            },
        }
    }
    if find_first(old, (row, col)) is None {
        Tryte::lemma_zero_value();
    }
}

/// The cell edits keep every field they do not name: marking dirty sets
/// only the flag; caching sets only the value and clears the flag; a
/// literal sets only the expression and the flag.
pub proof fn cell_edit_law(c: Cell, t: Tryte, e: CellExpr)
    ensures
        marked_dirty(c).dirty && marked_dirty(c).expr == c.expr && marked_dirty(c).cached_value == c.cached_value
            && marked_dirty(c).row == c.row && marked_dirty(c).col == c.col && marked_dirty(c).generation == c.generation,
        !with_cached(c, t).dirty && with_cached(c, t).cached_value == t && with_cached(c, t).expr == c.expr
            && with_cached(c, t).row == c.row && with_cached(c, t).col == c.col && with_cached(c, t).generation == c.generation,
        with_literal(c, t).dirty && with_literal(c, t).expr == CellExpr::Literal(t) && with_literal(c, t).cached_value == c.cached_value
            && with_literal(c, t).row == c.row && with_literal(c, t).col == c.col && with_literal(c, t).generation == c.generation,
{
}

/// The spreadsheet cell evaluation engine.
pub struct CellEngine {
    cells: Vec<Cell>,
    max_eval_depth: u32,
    rows: u32,
    cols: u32,
}

impl CellEngine {
    /// The cells, in the order they were made.
    pub closed spec fn cells_view(&self) -> Seq<Cell> {
        self.cells@
    }

    /// How deep evaluation follows references.
    pub closed spec fn max_depth(&self) -> u32 {
        self.max_eval_depth
    }

    /// The grid's dimensions, as given to `new_grid` (0 by 0 for `new`).
    pub closed spec fn dims(&self) -> (u32, u32) {
        (self.rows, self.cols)
    }

    pub fn new(config: &WasmConfig) -> (r: Self)
        ensures
            r.cells_view() == Seq::<Cell>::empty(),
            r.max_depth() == config.max_eval_depth,
            r.dims() == (0u32, 0u32),
    {
        Self { cells: Vec::new(), max_eval_depth: config.max_eval_depth, rows: 0, cols: 0 }
    }

    /// Create a grid of the given dimensions, initialized to zero, in
    /// row-major order.
    pub fn new_grid(rows: u32, cols: u32, config: &WasmConfig) -> (r: Self)
        ensures
            r.cells_view().len() == rows * cols,
            forall|i: int, j: int|
                0 <= i < rows && 0 <= j < cols ==> #[trigger] r.cells_view()[i * cols + j] == fresh_cell(
                    i as u32,
                    j as u32,
                    CellExpr::Literal(zero_tryte()),
                ),
            r.max_depth() == config.max_eval_depth,
            r.dims() == (rows, cols),
    {
        let mut engine = Self::new(config);
        engine.rows = rows;
        engine.cols = cols;
        let mut r: u32 = 0;
        while r < rows
            invariant
                r <= rows,
                engine.rows == rows,
                engine.cols == cols,
                engine.max_eval_depth == config.max_eval_depth,
                engine.cells@.len() == r * cols,
                forall|i: int, j: int|
                    0 <= i < r && 0 <= j < cols ==> #[trigger] engine.cells@[i * cols + j] == fresh_cell(
                        i as u32,
                        j as u32,
                        CellExpr::Literal(zero_tryte()),
                    ),
            decreases rows - r,
        {
            let mut c: u32 = 0;
            while c < cols
                invariant
                    r < rows,
                    c <= cols,
                    engine.rows == rows,
                    engine.cols == cols,
                    engine.max_eval_depth == config.max_eval_depth,
                    engine.cells@.len() == r * cols + c,
                    forall|i: int, j: int|
                        0 <= i < r && 0 <= j < cols ==> #[trigger] engine.cells@[i * cols + j] == fresh_cell(
                            i as u32,
                            j as u32,
                            CellExpr::Literal(zero_tryte()),
                        ),
                    forall|j: int|
                        0 <= j < c ==> #[trigger] engine.cells@[r * cols + j] == fresh_cell(
                            r,
                            j as u32,
                            CellExpr::Literal(zero_tryte()),
                        ),
                decreases cols - c,
            {
                let ghost before = engine.cells@;
                engine.cells.push(Cell::new(r, c, CellExpr::Literal(Tryte::zero())));
                assert forall|i: int, j: int|
                    0 <= i < r && 0 <= j < cols implies #[trigger] engine.cells@[i * cols + j] == fresh_cell(
                        i as u32,
                        j as u32,
                        CellExpr::Literal(zero_tryte()),
                    ) by {
                    lemma_row_major_index(i, j, r as int, cols as int);
                    assert(engine.cells@[i * cols + j] == before[i * cols + j]);
                }
                c = c + 1;
            }
            assert(engine.cells@.len() == (r + 1) * cols) by (nonlinear_arith)
                requires
                    engine.cells@.len() == r * cols + cols,
            ;
            r = r + 1;
        }
        engine
    }

    /// Find a cell by reference.
    fn find_cell(&self, key: CellRef) -> (r: Option<usize>)
        ensures
            match r {
                Some(i) => find_first(self.cells@, key) == Some(i as int),
                None => find_first(self.cells@, key) is None,
            },
            r matches Some(i) ==> i < self.cells@.len(),
    {
        proof {
            find_from_facts(self.cells@, key, 0);
        }
        let mut i: usize = 0;
        while i < self.cells.len()
            invariant
                i <= self.cells@.len(),
                find_first(self.cells@, key) == find_from(self.cells@, key, i as int),
            decreases self.cells@.len() - i,
        {
            let k = self.cells[i].ref_key();
            if k.0 == key.0 && k.1 == key.1 {
                return Some(i);
            }
            i = i + 1;
        }
        None
    }

    /// Whether `set_cell(row, col, _)` may run: a cell with that key, if
    /// there is one, has room in its generation counter.
    pub fn can_set_cell(&self, row: u32, col: u32) -> (r: bool)
        ensures
            r == match find_first(self.cells_view(), (row, col)) {
                Some(i) => self.cells_view()[i].generation < u32::MAX,
                None => true,
            },
    {
        match self.find_cell((row, col)) {
            Some(i) => self.cells[i].generation < u32::MAX,
            None => true,
        }
    }

    /// Set a cell's expression: the first cell with that key gets the new
    /// expression, becomes dirty and moves up a generation; without such a
    /// cell a new one is added at the end.
    pub fn set_cell(&mut self, row: u32, col: u32, expr: CellExpr)
        requires
            match find_first(old(self).cells_view(), (row, col)) {
                Some(i) => old(self).cells_view()[i].generation < u32::MAX,
                None => true,
            },
        ensures
            final(self).cells_view() == match find_first(old(self).cells_view(), (row, col)) {
                Some(i) => old(self).cells_view().update(i, with_expr(old(self).cells_view()[i], expr)),
                None => old(self).cells_view().push(fresh_cell(row, col, expr)),
            },
            final(self).max_depth() == old(self).max_depth(),
            final(self).dims() == old(self).dims(),
    {
        if let Some(idx) = self.find_cell((row, col)) {
            self.cells[idx].expr = expr;
            self.cells[idx].dirty = true;
            self.cells[idx].generation += 1;
        } else {
            self.cells.push(Cell::new(row, col, expr));
        }
    }

    /// Get a cell's cached value: that of the first cell with the key, or
    /// zero if there is none.
    pub fn get_value(&self, row: u32, col: u32) -> (r: Tryte)
        ensures
            r == match find_first(self.cells_view(), (row, col)) {
                Some(i) => self.cells_view()[i].cached_value,
                None => zero_tryte(),
            },
    {
        match self.find_cell((row, col)) {
            Some(i) => self.cells[i].cached_value,
            None => Tryte::zero(),
        }
    }

    /// Evaluate a single expression, returning its tryte value.
    fn eval_expr(&self, expr: &CellExpr, depth: u64) -> (r: Tryte)
        ensures
            r.value() == eval_value(self.cells@, self.max_eval_depth, *expr, depth as int),
        decreases self.max_eval_depth + 1 - depth,
    {
        if depth > self.max_eval_depth as u64 {
            return Tryte::zero();  // guard against infinite recursion
        }
        match expr {
            CellExpr::Literal(t) => *t,
            CellExpr::Ref(key) => {
                match self.find_cell(*key) {
                    Some(i) => self.eval_expr(&self.cells[i].expr, depth + 1),
                    None => Tryte::zero(),
                }
            },
            CellExpr::Sum(a, b) => {
                let va = self.eval_expr(&CellExpr::Ref(*a), depth + 1).to_i32();
                let vb = self.eval_expr(&CellExpr::Ref(*b), depth + 1).to_i32();
                proof {
                    eval_value_in_range(self.cells@, self.max_eval_depth, CellExpr::Ref(*a), depth + 1);
                    eval_value_in_range(self.cells@, self.max_eval_depth, CellExpr::Ref(*b), depth + 1);
                }
                Tryte::from_i32(va + vb)
            },
            CellExpr::Product(a, b) => {
                let va = self.eval_expr(&CellExpr::Ref(*a), depth + 1).to_i32();
                let vb = self.eval_expr(&CellExpr::Ref(*b), depth + 1).to_i32();
                proof {
                    eval_value_in_range(self.cells@, self.max_eval_depth, CellExpr::Ref(*a), depth + 1);
                    eval_value_in_range(self.cells@, self.max_eval_depth, CellExpr::Ref(*b), depth + 1);
                    assert(-132496 <= va * vb <= 132496) by (nonlinear_arith)
                        requires
                            -364 <= va <= 364,
                            -364 <= vb <= 364,
                    ;
                }
                Tryte::from_i32(va * vb)
            },
            CellExpr::Threshold(a, b) => {
                let va = self.eval_expr(&CellExpr::Ref(*a), depth + 1).to_i32();
                let vb = self.eval_expr(&CellExpr::Ref(*b), depth + 1).to_i32();
                if va > vb {
                    Tryte::from_i32(1)
                } else if va < vb {
                    Tryte::from_i32(-1)
                } else {
                    Tryte::zero()
                }
            },
        }
    }

    /// Recompute the entire grid: every cell caches the value of its
    /// expression, and no cell is left dirty.
    pub fn evaluate_all(&mut self)
        ensures
            evaluation_of(old(self).cells_view(), final(self).cells_view(), old(self).max_depth()),
            forall|i: int| 0 <= i < final(self).cells_view().len() ==> (#[trigger] final(self).cells_view()[i]).cached_value.value()
                == eval_value(final(self).cells_view(), final(self).max_depth(), final(self).cells_view()[i].expr, 0),
            final(self).max_depth() == old(self).max_depth(),
            final(self).dims() == old(self).dims(),
    {
        // First pass: evaluate all cells
        let mut new_values: Vec<Tryte> = Vec::new();
        let mut i: usize = 0;
        while i < self.cells.len()
            invariant
                i <= self.cells@.len(),
                new_values@.len() == i,
                forall|k: int| 0 <= k < i ==> (#[trigger] new_values@[k]).value() == eval_value(self.cells@, self.max_eval_depth, self.cells@[k].expr, 0),
            decreases self.cells@.len() - i,
        {
            let v = self.eval_expr(&self.cells[i].expr, 0);
            new_values.push(v);
            i = i + 1;
        }
        // Second pass: update caches
        let ghost old_cells = self.cells@;
        let mut k: usize = 0;
        while k < new_values.len()
            invariant
                k <= new_values@.len(),
                new_values@.len() == old_cells.len(),
                self.cells@.len() == old_cells.len(),
                self.max_eval_depth == old(self).max_eval_depth,
                self.rows == old(self).rows,
                self.cols == old(self).cols,
                old_cells == old(self).cells@,
                forall|m: int| 0 <= m < old_cells.len() ==> (#[trigger] new_values@[m]).value() == eval_value(old_cells, self.max_eval_depth, old_cells[m].expr, 0),
                forall|m: int| 0 <= m < k ==> #[trigger] self.cells@[m] == with_cached(old_cells[m], new_values@[m]),
                forall|m: int| k <= m < old_cells.len() ==> #[trigger] self.cells@[m] == old_cells[m],
            decreases new_values@.len() - k,
        {
            let val = new_values[k];
            self.cells[k].cached_value = val;
            self.cells[k].dirty = false;
            k = k + 1;
        }
        proof {
            assert(evaluation_of(old_cells, self.cells@, self.max_eval_depth));
            assert(same_formulas(old_cells, self.cells@)) by {
                assert forall|m: int| 0 <= m < old_cells.len() implies #[trigger] old_cells[m].row == self.cells@[m].row && old_cells[m].col == self.cells@[m].col && old_cells[m].expr == self.cells@[m].expr by {
                    assert(self.cells@[m] == with_cached(old_cells[m], new_values@[m]));
                }
            }
            assert forall|m: int| 0 <= m < self.cells@.len() implies (#[trigger] self.cells@[m]).cached_value.value() == eval_value(self.cells@, self.max_eval_depth, self.cells@[m].expr, 0) by {
                assert(self.cells@[m] == with_cached(old_cells[m], new_values@[m]));
                eval_reads_formulas_only(old_cells, self.cells@, self.max_eval_depth, old_cells[m].expr, 0);
            }
        }
    }

    /// Mark all cells as dirty.
    pub fn mark_all_dirty(&mut self)
        ensures
            final(self).cells_view().len() == old(self).cells_view().len(),
            forall|i: int| 0 <= i < old(self).cells_view().len() ==> #[trigger] final(self).cells_view()[i] == marked_dirty(old(self).cells_view()[i]),
            final(self).max_depth() == old(self).max_depth(),
            final(self).dims() == old(self).dims(),
    {
        let mut i: usize = 0;
        while i < self.cells.len()
            invariant
                i <= self.cells@.len(),
                self.cells@.len() == old(self).cells@.len(),
                self.max_eval_depth == old(self).max_eval_depth,
                self.rows == old(self).rows,
                self.cols == old(self).cols,
                forall|j: int| 0 <= j < i ==> #[trigger] self.cells@[j] == marked_dirty(old(self).cells@[j]),
                forall|j: int| i <= j < self.cells@.len() ==> #[trigger] self.cells@[j] == old(self).cells@[j],
            decreases self.cells@.len() - i,
        {
            self.cells[i].dirty = true;
            i = i + 1;
        }
    }

    /// Number of cells.
    pub fn cell_count(&self) -> (r: usize)
        ensures
            r == self.cells_view().len(),
    {
        self.cells.len()
    }

    /// Export all cell values as a flat vector of trytes.
    pub fn export_values(&self) -> (r: Vec<Tryte>)
        ensures
            r@.len() == self.cells_view().len(),
            forall|i: int| 0 <= i < r@.len() ==> r@[i] == #[trigger] self.cells_view()[i].cached_value,
    {
        let mut out: Vec<Tryte> = Vec::new();
        let mut i: usize = 0;
        while i < self.cells.len()
            invariant
                i <= self.cells@.len(),
                out@.len() == i,
                forall|j: int| 0 <= j < i ==> out@[j] == self.cells@[j].cached_value,
            decreases self.cells@.len() - i,
        {
            out.push(self.cells[i].cached_value);
            i = i + 1;
        }
        out
    }

    /// Import values from a flat vector, filling cells in row-major order.
    pub fn import_values(&mut self, values: &[Tryte])
        ensures
            import_of(old(self).cells_view(), values@, final(self).cells_view()),
            final(self).max_depth() == old(self).max_depth(),
            final(self).dims() == old(self).dims(),
    {
        let mut i: usize = 0;
        while i < values.len()
            invariant
                i <= values@.len(),
                self.cells@.len() == old(self).cells@.len(),
                self.max_eval_depth == old(self).max_eval_depth,
                self.rows == old(self).rows,
                self.cols == old(self).cols,
                forall|j: int| 0 <= j < self.cells@.len() ==> #[trigger] self.cells@[j] == (if j < i {
                    with_literal(old(self).cells@[j], values@[j])
                } else {
                    old(self).cells@[j]
                }),
            decreases values@.len() - i,
        {
            if i < self.cells.len() {
                self.cells[i].expr = CellExpr::Literal(values[i]);
                self.cells[i].dirty = true;
            }
            i = i + 1;
        }
    }
}

proof fn lemma_row_major_index(i: int, j: int, r: int, cols: int)
    requires
        0 <= i < r,
        0 <= j < cols,
    ensures
        0 <= i * cols + j < r * cols,
{
    assert(0 <= i * cols + j < r * cols) by (nonlinear_arith)
        requires
            0 <= i < r,
            0 <= j < cols,
    ;
}

} // verus!

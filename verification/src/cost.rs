//! Checked compact consumer costs and the cost models that produce them.
//!
//! A cost is a pair ordered lexicographically: squared horizontal overflow is
//! minimized before the newline-and-penalty burden.
use vstd::prelude::*;

verus! {

/// Lexicographically ordered production cost.
///
/// Overflow is minimized before layout burden.
#[derive(Clone, Copy, Debug, PartialEq, Eq, Structural, PartialOrd, Ord, Hash)]
pub struct ConsumerCost {
    /// Squared horizontal-overflow component.
    pub overflow: u128,
    /// Newline-and-penalty burden component.
    pub burden: u64,
}

/// `a` is strictly cheaper than `b`: smaller overflow, or equal overflow and
/// smaller burden.
pub open spec fn cost_lt(a: ConsumerCost, b: ConsumerCost) -> bool {
    a.overflow < b.overflow || (a.overflow == b.overflow && a.burden < b.burden)
}

/// `a` is no more expensive than `b`.
pub open spec fn cost_le(a: ConsumerCost, b: ConsumerCost) -> bool {
    cost_lt(a, b) || a == b
}

/// The additive identity.
pub open spec fn cost_zero() -> ConsumerCost {
    ConsumerCost { overflow: 0, burden: 0 }
}

/// Exact componentwise sum, absent when either component leaves its domain.
pub open spec fn cost_add(a: ConsumerCost, b: ConsumerCost) -> Option<ConsumerCost> {
    if a.overflow + b.overflow <= u128::MAX && a.burden + b.burden <= u64::MAX {
        Some(
            ConsumerCost {
                overflow: (a.overflow + b.overflow) as u128,
                burden: (a.burden + b.burden) as u64,
            },
        )
    } else {
        None
    }
}

/// Adds an optional cost to an optional cost; absence propagates.
pub open spec fn cost_add_opt(a: Option<ConsumerCost>, b: Option<ConsumerCost>) -> Option<
    ConsumerCost,
> {
    match (a, b) {
        (Some(x), Some(y)) => cost_add(x, y),
        _ => None,
    }
}

impl ConsumerCost {
    /// Returns the squared horizontal-overflow component.
    pub fn overflow(self) -> (r: u128)
        ensures
            r == self.overflow,
    {
        self.overflow
    }

    /// Returns the newline-and-penalty burden component.
    pub fn burden(self) -> (r: u64)
        ensures
            r == self.burden,
    {
        self.burden
    }

    /// The additive identity.
    pub fn zero() -> (r: Self)
        ensures
            r == cost_zero(),
    {
        ConsumerCost { overflow: 0, burden: 0 }
    }

    /// Componentwise checked sum; `None` exactly when a component overflows.
    pub fn checked_add(self, other: Self) -> (r: Option<Self>)
        ensures
            r == cost_add(self, other),
    {
        let overflow = match self.overflow.checked_add(other.overflow) {
            Some(v) => v,
            None => return None,
        };
        let burden = match self.burden.checked_add(other.burden) {
            Some(v) => v,
            None => return None,
        };
        Some(ConsumerCost { overflow, burden })
    }

    /// Strict lexicographic comparison.
    pub fn is_cheaper_than(&self, other: &Self) -> (r: bool)
        ensures
            r == cost_lt(*self, *other),
    {
        self.overflow < other.overflow || (self.overflow == other.overflow && self.burden
            < other.burden)
    }

    /// Non-strict lexicographic comparison.
    pub fn is_at_most(&self, other: &Self) -> (r: bool)
        ensures
            r == cost_le(*self, *other),
    {
        self.is_cheaper_than(other) || (self.overflow == other.overflow && self.burden
            == other.burden)
    }
}

/// The order is total, transitive and antisymmetric; addition is monotone.
pub proof fn lemma_cost_order(a: ConsumerCost, b: ConsumerCost, c: ConsumerCost)
    ensures
        cost_le(a, b) || cost_lt(b, a),
        cost_le(a, b) && cost_le(b, c) ==> cost_le(a, c),
        cost_lt(a, b) && cost_le(b, c) ==> cost_lt(a, c),
        cost_le(a, b) && cost_lt(b, c) ==> cost_lt(a, c),
        cost_le(a, b) && cost_le(b, a) ==> a == b,
        !cost_lt(a, a),
{
}

/// Both components of `a` are at most those of `b`.
pub open spec fn cost_le_each(a: ConsumerCost, b: ConsumerCost) -> bool {
    a.overflow <= b.overflow && a.burden <= b.burden
}

/// Sums of ordered operands are ordered, whenever both sums exist.
pub proof fn lemma_cost_add_le(x1: ConsumerCost, y1: ConsumerCost, x2: ConsumerCost, y2: ConsumerCost)
    requires
        cost_le(x1, y1),
        cost_le(x2, y2),
        cost_add(x1, x2) is Some,
        cost_add(y1, y2) is Some,
    ensures
        cost_le(cost_add(x1, x2).unwrap(), cost_add(y1, y2).unwrap()),
{
}

/// A sum with one strictly cheaper operand and one no dearer operand is
/// strictly cheaper, whenever both sums exist.
pub proof fn lemma_cost_add_lt(x1: ConsumerCost, y1: ConsumerCost, x2: ConsumerCost, y2: ConsumerCost)
    requires
        cost_add(x1, x2) is Some,
        cost_add(y1, y2) is Some,
    ensures
        cost_lt(x1, y1) && cost_le(x2, y2) ==> cost_lt(cost_add(x1, x2).unwrap(), cost_add(y1, y2).unwrap()),
        cost_le(x1, y1) && cost_lt(x2, y2) ==> cost_lt(cost_add(x1, x2).unwrap(), cost_add(y1, y2).unwrap()),
{
}

/// A cost componentwise at most another and different from it is strictly
/// cheaper.
pub proof fn lemma_cost_le_each_lt(x: ConsumerCost, y: ConsumerCost)
    ensures
        cost_le_each(x, y) && x != y ==> cost_lt(x, y),
{
}

/// Componentwise order implies the lexicographic order, and componentwise
/// smaller operands keep a representable sum representable and smaller.
pub proof fn lemma_cost_le_each(x1: ConsumerCost, y1: ConsumerCost, x2: ConsumerCost, y2: ConsumerCost)
    requires
        cost_le_each(x1, y1),
        cost_le_each(x2, y2),
        cost_add(y1, y2) is Some,
    ensures
        cost_le(x1, y1),
        cost_add(x1, x2) is Some,
        cost_le_each(cost_add(x1, x2).unwrap(), cost_add(y1, y2).unwrap()),
{
}

/// Addition is commutative and associative where defined, and zero is its
/// identity.
pub proof fn lemma_cost_add_algebra(a: ConsumerCost, b: ConsumerCost, c: ConsumerCost)
    ensures
        cost_add(a, b) == cost_add(b, a),
        cost_add(a, cost_zero()) == Some(a),
        cost_add_opt(cost_add(a, b), Some(c)) == cost_add_opt(Some(a), cost_add(b, c)),
{
}

/// Columns beyond `width`.
pub open spec fn over(width: u32, column: int) -> int {
    if column > width {
        column - width
    } else {
        0
    }
}

/// Squared-overflow cost of a text run of `run` columns starting at `column`:
/// the growth of the squared overflow from its first to its last column.
pub open spec fn text_overflow(width: u32, column: int, run: int) -> int {
    over(width, column + run) * over(width, column + run) - over(width, column) * over(
        width,
        column,
    )
}

/// The production cost model: squared overflow beyond `width`, and
/// `newline_cost` burden per newline plus each penalty's amount.
/// Indentation entered by nesting or alignment is clamped to `indent_cap`.
#[derive(Clone, Copy, Debug)]
pub struct PreparedConsumerCostModel {
    /// Target page width in display columns.
    pub width: u32,
    /// Burden charged for each newline.
    pub newline_cost: u32,
    /// Largest indentation that nesting or alignment enters.
    pub indent_cap: u32,
}

/// `indent` clamped to at most `cap`.
pub open spec fn clamp_indent(indent: u32, cap: u32) -> u32 {
    if indent <= cap {
        indent
    } else {
        cap
    }
}

/// Clamps `indent` to at most `cap`.
pub fn clamp(indent: u32, cap: u32) -> (r: u32)
    ensures
        r == clamp_indent(indent, cap),
{
    if indent <= cap {
        indent
    } else {
        cap
    }
}

/// Cost of text of `run` columns at `column` under page width `width`;
/// absent when the end column leaves `u32`.
pub open spec fn spec_text_cost(width: u32, column: u32, run: u32) -> Option<ConsumerCost> {
    if column + run > u32::MAX {
        None
    } else {
        Some(ConsumerCost { overflow: text_overflow(width, column as int, run as int) as u128, burden: 0 })
    }
}

proof fn lemma_text_overflow_bounds(width: u32, column: int, run: int)
    requires
        0 <= column,
        0 <= run,
        column + run <= u32::MAX,
    ensures
        0 <= text_overflow(width, column, run) <= u32::MAX * u32::MAX,
        0 <= over(width, column) <= over(width, column + run) <= u32::MAX,
{
    let s = over(width, column);
    let e = over(width, column + run);
    assert(0 <= s <= e <= u32::MAX);
    assert(s * s <= e * e) by (nonlinear_arith)
        requires
            0 <= s <= e,
    ;
    assert(e * e <= u32::MAX * u32::MAX) by (nonlinear_arith)
        requires
            0 <= e <= u32::MAX,
    ;
}

impl PreparedConsumerCostModel {
    /// Creates a model for page `width` charging `newline_cost` per newline.
    pub fn new(width: u32, newline_cost: u32) -> (r: Self)
        ensures
            r.width == width,
            r.newline_cost == newline_cost,
            r.indent_cap == u32::MAX,
    {
        Self { width, newline_cost, indent_cap: u32::MAX }
    }

    /// The same model with indentation clamped to at most `indent_cap`.
    pub fn with_indent_cap(self, indent_cap: u32) -> (r: Self)
        ensures
            r.width == self.width,
            r.newline_cost == self.newline_cost,
            r.indent_cap == indent_cap,
    {
        Self { width: self.width, newline_cost: self.newline_cost, indent_cap }
    }

    /// Columns of `column` beyond the page width.
    pub fn over(self, column: u32) -> (r: u128)
        ensures
            r == over(self.width, column as int),
    {
        column.saturating_sub(self.width) as u128
    }

    /// Cost of a text run of `width` columns beginning at `column`; `None`
    /// exactly when the end column is not representable.
    pub fn text(self, column: u32, width: u32) -> (r: Option<ConsumerCost>)
        ensures
            r == spec_text_cost(self.width, column, width),
    {
        let end_column = match column.checked_add(width) {
            Some(v) => v,
            None => return None,
        };
        let start = self.over(column);
        let end = self.over(end_column);
        proof {
            lemma_text_overflow_bounds(self.width, column as int, width as int);
        }
        assert(start * start <= u32::MAX * u32::MAX) by (nonlinear_arith)
            requires
                start <= u32::MAX,
        ;
        assert(end * end <= u32::MAX * u32::MAX) by (nonlinear_arith)
            requires
                end <= u32::MAX,
        ;
        let start_squared = start * start;
        let end_squared = end * end;
        Some(ConsumerCost { overflow: end_squared - start_squared, burden: 0 })
    }

    /// Cost of one newline.
    pub fn newline(self) -> (r: ConsumerCost)
        ensures
            r == (ConsumerCost { overflow: 0, burden: self.newline_cost as u64 }),
    {
        ConsumerCost { overflow: 0, burden: self.newline_cost as u64 }
    }

    /// Cost of an explicit penalty.
    pub fn penalty(self, amount: u32) -> (r: ConsumerCost)
        ensures
            r == (ConsumerCost { overflow: 0, burden: amount as u64 }),
    {
        ConsumerCost { overflow: 0, burden: amount as u64 }
    }
}

/// Text cost never decreases when the same run starts further right, and a
/// representable run stays representable further left.
pub proof fn lemma_text_cost_monotone(width: u32, c1: u32, c2: u32, run: u32)
    requires
        c1 <= c2,
        spec_text_cost(width, c2, run) is Some,
    ensures
        spec_text_cost(width, c1, run) is Some,
        spec_text_cost(width, c1, run).unwrap().overflow <= spec_text_cost(
            width,
            c2,
            run,
        ).unwrap().overflow,
        cost_le(spec_text_cost(width, c1, run).unwrap(), spec_text_cost(width, c2, run).unwrap()),
{
    lemma_text_overflow_bounds(width, c1 as int, run as int);
    lemma_text_overflow_bounds(width, c2 as int, run as int);
    let w = width as int;
    let a = c1 as int;
    let b = c2 as int;
    let r = run as int;
    assert(text_overflow(width, a, r) <= text_overflow(width, b, r)) by {
        let sa = over(width, a);
        let ea = over(width, a + r);
        let sb = over(width, b);
        let eb = over(width, b + r);
        // Each squared difference is a sum of consecutive odd numbers that
        // only grow as the run moves right.
        if b + r <= w {
            assert(ea == 0 && eb == 0 && sa == 0 && sb == 0);
        } else if a >= w {
            assert(ea - sa == r && eb - sb == r);
            assert(ea * ea - sa * sa == r * (ea + sa)) by (nonlinear_arith)
                requires
                    ea - sa == r,
            ;
            assert(eb * eb - sb * sb == r * (eb + sb)) by (nonlinear_arith)
                requires
                    eb - sb == r,
            ;
            assert(r * (ea + sa) <= r * (eb + sb)) by (nonlinear_arith)
                requires
                    0 <= r,
                    ea + sa <= eb + sb,
            ;
        } else if a + r <= w {
            assert(ea == 0 && sa == 0);
            assert(eb * eb - sb * sb >= 0) by (nonlinear_arith)
                requires
                    0 <= sb <= eb,
            ;
        } else {
            // a < w < a + r, so sa == 0 and ea < a + r - w + ... <= eb - sb
            assert(sa == 0);
            assert(ea == a + r - w);
            assert(eb == b + r - w);
            assert(sb == (if b > w { b - w } else { 0 }));
            assert(eb - sb >= ea);
            assert(eb * eb - sb * sb >= ea * ea) by (nonlinear_arith)
                requires
                    0 <= sb,
                    0 <= ea <= eb - sb,
            ;
        }
    }
}

/// The cost of a run starting at column zero never falls as the run widens.
pub proof fn lemma_text_cost_width_monotone(width: u32, w1: u32, w2: u32)
    requires
        w1 <= w2,
    ensures
        spec_text_cost(width, 0, w1) is Some,
        spec_text_cost(width, 0, w2) is Some,
        spec_text_cost(width, 0, w1).unwrap().overflow <= spec_text_cost(width, 0, w2).unwrap().overflow,
{
    lemma_text_overflow_bounds(width, 0, w1 as int);
    lemma_text_overflow_bounds(width, 0, w2 as int);
    let a = over(width, w1 as int);
    let b = over(width, w2 as int);
    assert(a <= b);
    assert(a * a <= b * b) by (nonlinear_arith)
        requires
            0 <= a <= b,
    ;
}

/// Text cost splits additively: a run of `r1 + r2` columns costs what its two
/// consecutive pieces cost.
pub proof fn lemma_text_cost_split(width: u32, column: int, r1: int, r2: int)
    requires
        0 <= column,
        0 <= r1,
        0 <= r2,
    ensures
        text_overflow(width, column, r1 + r2) == text_overflow(width, column, r1)
            + text_overflow(width, column + r1, r2),
{
}

/// Terminal display width using the default narrow Unicode policy, when that
/// width fits in `u32`.
pub fn display_width(value: &str) -> (r: Option<u32>)
    ensures
        r == (if crate::doc::unicode_width_narrow(value@) <= u32::MAX {
            Some(crate::doc::unicode_width_narrow(value@) as u32)
        } else {
            None
        }),
{
    let width = crate::doc::str_width_narrow(value);
    if width <= u32::MAX as usize {
        Some(width as u32)
    } else {
        None
    }
}

} // verus!

verus! {

/// Defines the cost algebra used by the allocating research engines: costs
/// are [`ConsumerCost`] pairs, added with [`ConsumerCost::checked_add`].
pub trait CostModel {
    /// Cost of a text run of `width` columns beginning at `column`.
    spec fn spec_text(&self, column: u32, width: u32) -> Option<ConsumerCost>;

    /// Cost of one newline.
    spec fn spec_newline(&self) -> ConsumerCost;

    /// Cost of an explicit document penalty.
    spec fn spec_penalty(&self, amount: u32) -> ConsumerCost;

    /// Largest indentation that nesting or alignment enters.
    spec fn spec_indent_cap(&self) -> u32;

    /// Largest indentation that nesting or alignment enters.
    fn indent_cap(&self) -> (r: u32)
        ensures
            r == self.spec_indent_cap(),
    ;

    /// Costs a text run beginning at `column`.
    fn text(&self, column: u32, width: u32) -> (r: Option<ConsumerCost>)
        ensures
            r == self.spec_text(column, width),
    ;

    /// Costs one newline.
    fn newline(&self) -> (r: ConsumerCost)
        ensures
            r == self.spec_newline(),
    ;

    /// Costs an explicit document penalty.
    fn penalty(&self, amount: u32) -> (r: ConsumerCost)
        ensures
            r == self.spec_penalty(amount),
    ;
}

/// Sealed marker for models that satisfy the frontier pruning laws: text
/// costs never fall and stay representable as the starting column moves
/// left, so an earlier-ending, no-dearer prefix is never worse.
pub trait LawfulCostModel: CostModel + crate::sealed::Sealed {
    /// Text cost is monotone in the starting column.
    proof fn lemma_text_monotone(&self, c1: u32, c2: u32, width: u32)
        requires
            c1 <= c2,
            self.spec_text(c2, width) is Some,
        ensures
            self.spec_text(c1, width) is Some,
            self.spec_text(c1, width).unwrap().overflow <= self.spec_text(c2, width).unwrap().overflow,
            self.spec_text(c1, width).unwrap().burden <= self.spec_text(c2, width).unwrap().burden,
    ;

    /// Text cost from column zero is monotone in the run's width.
    proof fn lemma_text_width_monotone(&self, w1: u32, w2: u32)
        requires
            w1 <= w2,
            self.spec_text(0, w2) is Some,
        ensures
            self.spec_text(0, w1) is Some,
            self.spec_text(0, w1).unwrap().overflow <= self.spec_text(0, w2).unwrap().overflow,
            self.spec_text(0, w1).unwrap().burden <= self.spec_text(0, w2).unwrap().burden,
    ;
}

impl CostModel for PreparedConsumerCostModel {
    open spec fn spec_indent_cap(&self) -> u32 {
        self.indent_cap
    }

    fn indent_cap(&self) -> (r: u32) {
        self.indent_cap
    }

    open spec fn spec_text(&self, column: u32, width: u32) -> Option<ConsumerCost> {
        spec_text_cost(self.width, column, width)
    }

    open spec fn spec_newline(&self) -> ConsumerCost {
        ConsumerCost { overflow: 0, burden: self.newline_cost as u64 }
    }

    open spec fn spec_penalty(&self, amount: u32) -> ConsumerCost {
        ConsumerCost { overflow: 0, burden: amount as u64 }
    }

    fn text(&self, column: u32, width: u32) -> (r: Option<ConsumerCost>) {
        PreparedConsumerCostModel::text(*self, column, width)
    }

    fn newline(&self) -> (r: ConsumerCost) {
        PreparedConsumerCostModel::newline(*self)
    }

    fn penalty(&self, amount: u32) -> (r: ConsumerCost) {
        PreparedConsumerCostModel::penalty(*self, amount)
    }
}

impl crate::sealed::Sealed for PreparedConsumerCostModel {}

impl LawfulCostModel for PreparedConsumerCostModel {
    proof fn lemma_text_monotone(&self, c1: u32, c2: u32, width: u32) {
        lemma_text_cost_monotone(self.width, c1, c2, width);
    }

    proof fn lemma_text_width_monotone(&self, w1: u32, w2: u32) {
        lemma_text_cost_width_monotone(self.width, w1, w2);
    }
}

/// Research counterpart of the production consumer model over checked
/// fixed-width costs (`u128` overflow, `u64` burden):
/// the same squared overflow, `newline_cost` per newline and penalty amounts.
#[derive(Clone, Copy, Debug, PartialEq, Eq)]
pub struct ResearchConsumerCostModel {
    /// Target page width.
    pub width: u32,
    /// Burden charged for each newline.
    pub newline_cost: u32,
}

impl ResearchConsumerCostModel {
    /// Creates a model for the requested page width, one burden per newline.
    pub fn new(width: u32) -> (r: Self)
        ensures
            r.width == width,
            r.newline_cost == 1,
    {
        Self { width, newline_cost: 1 }
    }

    /// Sets the burden charged for each newline.
    pub fn with_newline_cost(self, newline_cost: u32) -> (r: Self)
        ensures
            r.width == self.width,
            r.newline_cost == newline_cost,
    {
        Self { width: self.width, newline_cost }
    }

    /// Columns of `column` beyond the page width.
    pub fn over(self, column: u32) -> (r: u64)
        ensures
            r == over(self.width, column as int),
    {
        column.saturating_sub(self.width) as u64
    }
}

impl CostModel for ResearchConsumerCostModel {
    open spec fn spec_indent_cap(&self) -> u32 {
        u32::MAX
    }

    fn indent_cap(&self) -> (r: u32) {
        u32::MAX
    }

    open spec fn spec_text(&self, column: u32, width: u32) -> Option<ConsumerCost> {
        spec_text_cost(self.width, column, width)
    }

    open spec fn spec_newline(&self) -> ConsumerCost {
        ConsumerCost { overflow: 0, burden: self.newline_cost as u64 }
    }

    open spec fn spec_penalty(&self, amount: u32) -> ConsumerCost {
        ConsumerCost { overflow: 0, burden: amount as u64 }
    }

    fn text(&self, column: u32, width: u32) -> (r: Option<ConsumerCost>) {
        PreparedConsumerCostModel::new(self.width, self.newline_cost).text(column, width)
    }

    fn newline(&self) -> (r: ConsumerCost) {
        ConsumerCost { overflow: 0, burden: self.newline_cost as u64 }
    }

    fn penalty(&self, amount: u32) -> (r: ConsumerCost) {
        ConsumerCost { overflow: 0, burden: amount as u64 }
    }
}

impl crate::sealed::Sealed for ResearchConsumerCostModel {}

impl LawfulCostModel for ResearchConsumerCostModel {
    proof fn lemma_text_monotone(&self, c1: u32, c2: u32, width: u32) {
        lemma_text_cost_monotone(self.width, c1, c2, width);
    }

    proof fn lemma_text_width_monotone(&self, w1: u32, w2: u32) {
        lemma_text_cost_width_monotone(self.width, w1, w2);
    }
}

/// Research model that minimizes overflow and then final height: each
/// newline costs one burden, penalties cost nothing.
#[derive(Clone, Copy, Debug)]
pub struct OverflowThenHeight {
    /// Target page width in display columns.
    pub width: u32,
}

impl CostModel for OverflowThenHeight {
    open spec fn spec_indent_cap(&self) -> u32 {
        u32::MAX
    }

    fn indent_cap(&self) -> (r: u32) {
        u32::MAX
    }

    open spec fn spec_text(&self, column: u32, width: u32) -> Option<ConsumerCost> {
        spec_text_cost(self.width, column, width)
    }

    open spec fn spec_newline(&self) -> ConsumerCost {
        ConsumerCost { overflow: 0, burden: 1 }
    }

    open spec fn spec_penalty(&self, amount: u32) -> ConsumerCost {
        cost_zero()
    }

    fn text(&self, column: u32, width: u32) -> (r: Option<ConsumerCost>) {
        PreparedConsumerCostModel::new(self.width, 1).text(column, width)
    }

    fn newline(&self) -> (r: ConsumerCost) {
        ConsumerCost { overflow: 0, burden: 1 }
    }

    fn penalty(&self, amount: u32) -> (r: ConsumerCost) {
        ConsumerCost::zero()
    }
}

impl crate::sealed::Sealed for OverflowThenHeight {}

impl LawfulCostModel for OverflowThenHeight {
    proof fn lemma_text_monotone(&self, c1: u32, c2: u32, width: u32) {
        lemma_text_cost_monotone(self.width, c1, c2, width);
    }

    proof fn lemma_text_width_monotone(&self, w1: u32, w2: u32) {
        lemma_text_cost_width_monotone(self.width, w1, w2);
    }
}

} // verus!

//! The sheet: the authoritative cell store, the keyword resolver that
//! bridges the interpreter to the cells, the reverse-dependency propagation
//! walk, and per-cell change subscriptions. Change notifications are queued
//! and drained by the host after each mutating call.

use vstd::prelude::*;

use crate::dep_graph::{depends_on_trans, depends_within, eq_well_behaved, has_edge, lemma_depends_step, DepGraph, Node};
use crate::error::{AppError, AppResult};
use crate::interpreter::builtins::show_text;
use crate::interpreter::compiler::{compile_with_prelude, Program};
use crate::interpreter::env::Env;
use crate::interpreter::evaluator::{eval, run_spec, KeywordResolver, RunOutcome, EVAL_FUEL};
use crate::interpreter::model::{
    copy_instructions, instrs_view, value_view, InstrView, Value, ValueView,
};
use crate::numeric::{number_to_text, text_of_number};
use crate::parser::{expr_view, interpret_cell, is_full_number, Expr, ExprView, InterpretCellResult};
use crate::sheet::core_model::SheetAddress;
use crate::sheet::sheet_range::{
    parse_range_spec, SheetRange, SheetRangeShapedAddresses,
};

verus! {

/// The iteration bound of one propagation walk.
pub const MAX_ITERS: u64 = 10_000;

/// What a cell holds after computation.
#[derive(Debug, PartialEq)]
pub enum SheetCellComputedValue {
    Number(u32),
    Text(String),
    Invalid { message: String },
}

/// The mathematical shape of a computed cell value.
pub enum CellView {
    Num(u32),
    Text(Seq<char>),
    Invalid(Seq<char>),
}

pub open spec fn cell_view(c: SheetCellComputedValue) -> CellView {
    match c {
        SheetCellComputedValue::Number(n) => CellView::Num(n),
        SheetCellComputedValue::Text(s) => CellView::Text(s@),
        SheetCellComputedValue::Invalid { message } => CellView::Invalid(message@),
    }
}

/// The cell value an evaluation result stores: numbers and strings carry
/// over, a boolean reads `TRUE` or `FALSE`, nil reads `<nil>`, and any
/// other value is not representable in a cell.
pub open spec fn cell_of_value(v: ValueView) -> CellView {
    match v {
        ValueView::Number(n) => CellView::Num(n),
        ValueView::Str(s) => CellView::Text(s),
        ValueView::Boolean(b) => CellView::Text(
            if b {
                "TRUE"@
            } else {
                "FALSE"@
            },
        ),
        ValueView::Nil => CellView::Text("<nil>"@),
        _ => CellView::Invalid("Expression is not representable in a cell: "@ + show_text(v)),
    }
}

impl SheetCellComputedValue {
    /// Builds the cell value an evaluation result stores.
    pub fn from_interpreter_value(ivalue: Value) -> (r: Self)
        ensures
            cell_view(r) == cell_of_value(value_view(ivalue)),
    {
        match ivalue {
            Value::Number(n) => SheetCellComputedValue::Number(n),
            Value::String(s) => SheetCellComputedValue::Text(s),
            Value::Boolean(b) => SheetCellComputedValue::Text(
                if b {
                    String::from_str("TRUE")
                } else {
                    String::from_str("FALSE")
                },
            ),
            Value::Nil => SheetCellComputedValue::Text(String::from_str("<nil>")),
            other => {
                let shown = crate::interpreter::builtins::show_value(&other);
                let mut m = String::from_str("Expression is not representable in a cell: ");
                m.append(shown.as_str());
                SheetCellComputedValue::Invalid { message: m }
            },
        }
    }

    /// The interpreter value a stored cell resolves to.
    pub fn to_interpreter_value(&self) -> (r: Value)
        ensures
            value_view(r) == match cell_view(*self) {
                CellView::Num(n) => ValueView::Number(n),
                CellView::Text(s) => ValueView::Str(s),
                CellView::Invalid(_) => ValueView::Nil,
            },
    {
        match self {
            SheetCellComputedValue::Number(n) => Value::Number(*n),
            SheetCellComputedValue::Text(s) => Value::String(s.clone()),
            SheetCellComputedValue::Invalid { .. } => Value::Nil,
        }
    }

    /// The value of an empty cell: empty text.
    pub fn empty() -> (r: Self)
        ensures
            cell_view(r) == CellView::Text(Seq::<char>::empty()),
    {
        SheetCellComputedValue::Text(String::new())
    }

    /// The display form: numbers in decimal, text verbatim, an invalid
    /// value flagged with its message.
    pub fn render(&self) -> (r: String)
        ensures
            r@ == match cell_view(*self) {
                CellView::Num(n) => text_of_number(n),
                CellView::Text(s) => s,
                CellView::Invalid(m) => "!INVALID: "@ + m,
            },
    {
        match self {
            SheetCellComputedValue::Number(n) => number_to_text(*n),
            SheetCellComputedValue::Text(s) => s.clone(),
            SheetCellComputedValue::Invalid { message } => {
                let mut m = String::from_str("!INVALID: ");
                m.append(message.as_str());
                m
            },
        }
    }
}

/// A compiled formula cell: its address, its program, and the addresses its
/// source references.
pub struct SheetFormula {
    pub address: SheetAddress,
    pub program: Program,
    pub references: Vec<SheetAddress>,
    pub source: String,
}

impl Node<SheetAddress> for SheetFormula {
    open spec fn id_spec(&self) -> SheetAddress {
        self.address
    }

    open spec fn deps_spec(&self) -> Seq<SheetAddress> {
        self.references@
    }

    fn get_id(&self) -> SheetAddress {
        self.address
    }

    fn get_deps(&self) -> &Vec<SheetAddress> {
        &self.references
    }
}

pub struct SheetCell {
    pub computed_value: SheetCellComputedValue,
    pub formula: Option<SheetFormula>,
    pub source: String,
}

/// The mathematical shape of a stored cell.
pub struct CellW {
    pub value: CellView,
    pub has_formula: bool,
    pub program: Seq<InstrView>,
    pub references: Seq<SheetAddress>,
    pub source: Seq<char>,
}

pub open spec fn cell_w(c: SheetCell) -> CellW {
    CellW {
        value: cell_view(c.computed_value),
        has_formula: c.formula is Some,
        program: match c.formula {
            Option::Some(f) => instrs_view(f.program.instructions@),
            Option::None => Seq::empty(),
        },
        references: match c.formula {
            Option::Some(f) => f.references@,
            Option::None => Seq::empty(),
        },
        source: c.source@,
    }
}

/// The cells as a map, later entries shadowing earlier ones.
pub open spec fn cells_view(entries: Seq<(SheetAddress, SheetCell)>) -> Map<SheetAddress, CellW>
    decreases entries.len(),
{
    if entries.len() == 0 {
        Map::empty()
    } else {
        cells_view(entries.drop_last()).insert(entries.last().0, cell_w(entries.last().1))
    }
}

/// A handle returned by `subscribe_to_cell`; passing it to `unsubscribe`
/// disconnects that subscription.
pub struct CellSubscription {
    pub address: SheetAddress,
    pub id: u64,
}

/// What `get_cell` answers: the computed value and the raw source.
pub struct SheetCellInfo {
    pub value: SheetCellComputedValue,
    pub source: String,
}

pub struct Sheet {
    pub cells: Vec<(SheetAddress, SheetCell)>,
    pub dep_graph: DepGraph<SheetAddress>,
    pub subscriptions: Vec<(SheetAddress, u64)>,
    pub next_sub_id: u64,
    pub pending: Vec<SheetAddress>,
}

impl Sheet {
    pub open spec fn cells_m(self) -> Map<SheetAddress, CellW> {
        cells_view(self.cells@)
    }

    /// Some live subscription listens on `a`.
    pub open spec fn subscribed(self, a: SheetAddress) -> bool {
        exists|i: int|
            0 <= i < self.subscriptions@.len() && (#[trigger] self.subscriptions@[i]).0 == a
    }

    pub open spec fn wf(self) -> bool {
        &&& self.dep_graph.wf()
    }

    /// A sheet with no cells, no edges and no subscribers.
    pub fn new() -> (r: Self)
        ensures
            r.wf(),
            r.cells_m() == Map::<SheetAddress, CellW>::empty(),
            r.subscriptions@.len() == 0,
            r.pending@.len() == 0,
    {
        let r = Sheet {
            cells: Vec::new(),
            dep_graph: DepGraph::empty(),
            subscriptions: Vec::new(),
            next_sub_id: 0,
            pending: Vec::new(),
        };
        proof {
            assert(r.cells_m() =~= Map::<SheetAddress, CellW>::empty());
        }
        r
    }

    /// The stored cell under `address`, scanned from the latest entry.
    fn find_cell(&self, address: &SheetAddress) -> (r: Option<&SheetCell>)
        ensures
            match r {
                Option::Some(c) => self.cells_m().contains_key(*address) && cell_w(*c)
                    == self.cells_m()[*address],
                Option::None => !self.cells_m().contains_key(*address),
            },
    {
        let n = self.cells.len();
        let mut k: usize = n;
        while k > 0
            invariant
                k <= n,
                n == self.cells@.len(),
                forall|m: int| k <= m < n ==> (#[trigger] self.cells@[m]).0 != *address,
            decreases k,
        {
            k = k - 1;
            if self.cells[k].0.eq(address) {
                proof {
                    lemma_cells_view_found(self.cells@, k as int);
                }
                return Some(&self.cells[k].1);
            }
        }
        proof {
            lemma_cells_view_missing(self.cells@, *address);
        }
        None
    }

    /// The interpreter value a single cell resolves to: its computed value,
    /// or nil when absent or invalid.
    fn resolve_address(&self, address: &SheetAddress) -> (r: Value)
        ensures
            value_view(r) == resolve_addr_spec(self.cells_m(), *address),
    {
        match self.find_cell(address) {
            Some(cell) => cell.computed_value.to_interpreter_value(),
            None => Value::Nil,
        }
    }

    /// The computed value and source of a cell; an absent cell reads as
    /// empty text with an empty source.
    pub fn get_cell(&self, address: &SheetAddress) -> (r: SheetCellInfo)
        ensures
            self.cells_m().contains_key(*address) ==> cell_view(r.value)
                == self.cells_m()[*address].value && r.source@ == self.cells_m()[*address].source,
            !self.cells_m().contains_key(*address) ==> cell_view(r.value) == CellView::Text(
                Seq::<char>::empty(),
            ) && r.source@ == Seq::<char>::empty(),
    {
        match self.find_cell(address) {
            Some(cell) => SheetCellInfo {
                value: copy_cell_value(&cell.computed_value),
                source: cell.source.clone(),
            },
            None => SheetCellInfo { value: SheetCellComputedValue::empty(), source: String::new() },
        }
    }

    /// Registers interest in changes of `address`; the address enters the
    /// pending queue whenever its cell changes from then on.
    pub fn subscribe_to_cell(&mut self, address: SheetAddress) -> (r: CellSubscription)
        requires
            old(self).wf(),
        ensures
            final(self).wf(),
            r.address == address,
            final(self).cells_m() == old(self).cells_m(),
            final(self).subscriptions@ == old(self).subscriptions@.push((address, r.id)),
            final(self).pending@ == old(self).pending@,
            final(self).dep_graph == old(self).dep_graph,
    {
        let id = self.next_sub_id;
        if self.next_sub_id < u64::MAX {
            self.next_sub_id = self.next_sub_id + 1;
        }
        self.subscriptions.push((address, id));
        CellSubscription { address, id }
    }

    /// Drops one subscription; when it was the last one on its address, the
    /// address no longer queues notifications.
    pub fn unsubscribe(&mut self, subscription: &CellSubscription)
        requires
            old(self).wf(),
        ensures
            final(self).wf(),
            final(self).cells_m() == old(self).cells_m(),
            final(self).pending@ == old(self).pending@,
            final(self).dep_graph == old(self).dep_graph,
            final(self).subscriptions@ == subs_without(
                old(self).subscriptions@,
                (subscription.address, subscription.id),
            ),
    {
        let ghost key = (subscription.address, subscription.id);
        let mut kept: Vec<(SheetAddress, u64)> = Vec::new();
        proof {
            assert(self.subscriptions@.take(0) =~= Seq::<(SheetAddress, u64)>::empty());
        }
        let mut k: usize = 0;
        while k < self.subscriptions.len()
            invariant
                k <= self.subscriptions@.len(),
                key == (subscription.address, subscription.id),
                kept@ == subs_without(self.subscriptions@.take(k as int), key),
            decreases self.subscriptions@.len() - k,
        {
            proof {
                assert(self.subscriptions@.take(k + 1).drop_last() =~= self.subscriptions@.take(
                    k as int,
                ));
                assert(self.subscriptions@.take(k + 1).last() == self.subscriptions@[k as int]);
            }
            let e = self.subscriptions[k];
            if !(e.0.eq(&subscription.address) && e.1 == subscription.id) {
                kept.push(e);
            }
            k = k + 1;
        }
        proof {
            assert(self.subscriptions@.take(self.subscriptions@.len() as int)
                =~= self.subscriptions@);
        }
        self.subscriptions = kept;
    }

    /// Hands out and clears the queued change notifications.
    pub fn take_pending(&mut self) -> (r: Vec<SheetAddress>)
        requires
            old(self).wf(),
        ensures
            final(self).wf(),
            r@ == old(self).pending@,
            final(self).pending@ == Seq::<SheetAddress>::empty(),
            final(self).cells_m() == old(self).cells_m(),
            final(self).subscriptions@ == old(self).subscriptions@,
            final(self).dep_graph == old(self).dep_graph,
    {
        let mut drained: Vec<SheetAddress> = Vec::new();
        core::mem::swap(&mut drained, &mut self.pending);
        drained
    }

    /// Queues a notification for `address` when someone subscribed to it.
    #[verifier::loop_isolation(false)]
    fn emit_signal(&mut self, address: &SheetAddress)
        requires
            old(self).wf(),
        ensures
            final(self).wf(),
            final(self).cells_m() == old(self).cells_m(),
            final(self).subscriptions@ == old(self).subscriptions@,
            final(self).dep_graph == old(self).dep_graph,
            old(self).subscribed(*address) ==> final(self).pending@ == old(self).pending@.push(
                *address,
            ),
            !old(self).subscribed(*address) ==> final(self).pending@ == old(self).pending@,
    {
        let mut k: usize = 0;
        let n = self.subscriptions.len();
        while k < n
            invariant
                k <= n,
                n == self.subscriptions@.len(),
                forall|m: int| 0 <= m < k ==> (#[trigger] self.subscriptions@[m]).0 != *address,
                self.cells@ == old(self).cells@,
                self.subscriptions@ == old(self).subscriptions@,
                self.dep_graph == old(self).dep_graph,
                self.pending@ == old(self).pending@,
                self.next_sub_id == old(self).next_sub_id,
            decreases n - k,
        {
            if self.subscriptions[k].0.eq(address) {
                self.pending.push(*address);
                return ;
            }
            k = k + 1;
        }
    }
}

/// The interpreter value one cell resolves to: a number or text cell reads
/// as that value, an invalid or absent cell reads as nil.
pub open spec fn resolve_addr_spec(cells: Map<SheetAddress, CellW>, a: SheetAddress) -> ValueView {
    if cells.contains_key(a) {
        match cells[a].value {
            CellView::Num(n) => ValueView::Number(n),
            CellView::Text(s) => ValueView::Str(s),
            CellView::Invalid(_) => ValueView::Nil,
        }
    } else {
        ValueView::Nil
    }
}

pub open spec fn resolve_addrs_spec(cells: Map<SheetAddress, CellW>, addrs: Seq<SheetAddress>)
    -> Seq<ValueView>
    decreases addrs.len(),
{
    if addrs.len() == 0 {
        Seq::empty()
    } else {
        seq![resolve_addr_spec(cells, addrs[0])] + resolve_addrs_spec(cells, addrs.drop_first())
    }
}

proof fn lemma_resolve_addrs(cells: Map<SheetAddress, CellW>, addrs: Seq<SheetAddress>)
    ensures
        resolve_addrs_spec(cells, addrs).len() == addrs.len(),
        forall|i: int|
            0 <= i < addrs.len() ==> #[trigger] resolve_addrs_spec(cells, addrs)[i]
                == resolve_addr_spec(cells, addrs[i]),
    decreases addrs.len(),
{
    if addrs.len() > 0 {
        lemma_resolve_addrs(cells, addrs.drop_first());
        assert forall|i: int|
            0 <= i < addrs.len() implies #[trigger] resolve_addrs_spec(cells, addrs)[i]
            == resolve_addr_spec(cells, addrs[i]) by {
            if i > 0 {
                assert(addrs.drop_first()[i - 1] == addrs[i]);
            }
        }
    }
}

/// What the sheet answers for a keyword: the text parses as a range; a
/// single address reads as that cell's value, a one-dimensional range as
/// the list of its cells' values, a two-dimensional range as the list of
/// its rows, each a list.
pub open spec fn resolve_keyword_spec(cells: Map<SheetAddress, CellW>, kw: Seq<char>) -> Result<
    ValueView,
    (),
> {
    match parse_range_spec(kw) {
        Option::None => Result::Err(()),
        Option::Some(rng) => {
            if !rng.spec_valid() {
                Result::Err(())
            } else if rng.start == rng.end {
                Result::Ok(resolve_addr_spec(cells, rng.start))
            } else if rng.start.row == rng.end.row || rng.start.col == rng.end.col {
                let addrs = if rng.start.row == rng.end.row {
                    crate::sheet::sheet_range::row_addrs(
                        rng.start.row,
                        rng.start.col as int,
                        rng.end.col as int,
                    )
                } else {
                    crate::sheet::sheet_range::col_addrs(
                        rng.start.col,
                        rng.start.row as int,
                        rng.end.row as int,
                    )
                };
                Result::Ok(ValueView::List(resolve_addrs_spec(cells, addrs)))
            } else {
                Result::Ok(ValueView::List(resolve_rows_spec(cells, rng)))
            }
        },
    }
}

/// The rows of a two-dimensional range, each resolved to a list of values.
pub open spec fn resolve_rows_spec(cells: Map<SheetAddress, CellW>, rng: SheetRange) -> Seq<
    ValueView,
> {
    Seq::new(
        rng.spec_height() as nat,
        |i: int|
            ValueView::List(
                resolve_addrs_spec(
                    cells,
                    crate::sheet::sheet_range::row_addrs(
                        (rng.start.row + i) as i32,
                        rng.start.col as int,
                        rng.end.col as int,
                    ),
                ),
            ),
    )
}

impl KeywordResolver for Sheet {
    open spec fn resolve_spec(&self, kw: Seq<char>) -> Result<ValueView, ()> {
        resolve_keyword_spec(self.cells_m(), kw)
    }

    #[verifier::loop_isolation(false)]
    fn resolve_keyword(&self, kw: &str) -> (r: AppResult<Value>) {
        let range = match SheetRange::parse(kw) {
            Ok(rng) => rng,
            Err(e) => {
                return Err(e);
            },
        };
        match range.addresses_shaped() {
            SheetRangeShapedAddresses::Single { address } => Ok(self.resolve_address(&address)),
            SheetRangeShapedAddresses::Addresses1D(mut it) => {
                let ghost addrs = it.remaining();
                let mut items: Vec<Value> = Vec::new();
                proof {
                    lemma_resolve_addrs(self.cells_m(), addrs);
                    crate::interpreter::model::lemma_values_view(items@);
                }
                loop
                    invariant
                        it.wf(),
                        items@.len() + it.remaining().len() == addrs.len(),
                        it.remaining() == addrs.skip(items@.len() as int),
                        forall|i: int|
                            0 <= i < items@.len() ==> value_view(#[trigger] items@[i])
                                == resolve_addr_spec(self.cells_m(), addrs[i]),
                    decreases it.remaining().len(),
                {
                    let ghost before = it.remaining();
                    match it.next() {
                        Some(a) => {
                            proof {
                                assert(before[0] == addrs[items@.len() as int]);
                            }
                            items.push(self.resolve_address(&a));
                        },
                        None => {
                            break ;
                        },
                    }
                }
                proof {
                    crate::interpreter::model::lemma_values_view(items@);
                    lemma_resolve_addrs(self.cells_m(), addrs);
                    assert(crate::interpreter::model::values_view(items@)
                        =~= resolve_addrs_spec(self.cells_m(), addrs));
                }
                Ok(Value::List(items))
            },
            SheetRangeShapedAddresses::Addresses2D(mut it) => {
                let ghost rows = it.remaining_rows();
                let mut items: Vec<Value> = Vec::new();
                proof {
                    crate::interpreter::model::lemma_values_view(items@);
                }
                loop
                    invariant
                        it.wf(),
                        items@.len() + it.remaining_rows().len() == rows.len(),
                        it.remaining_rows() == rows.skip(items@.len() as int),
                        forall|i: int|
                            0 <= i < items@.len() ==> value_view(#[trigger] items@[i])
                                == ValueView::List(
                                resolve_addrs_spec(self.cells_m(), rows[i]),
                            ),
                    decreases it.remaining_rows().len(),
                {
                    let ghost before = it.remaining_rows();
                    match it.next() {
                        Some(mut row_it) => {
                            proof {
                                assert(before[0] == rows[items@.len() as int]);
                            }
                            let ghost raddrs = row_it.remaining();
                            let mut row: Vec<Value> = Vec::new();
                            proof {
                                lemma_resolve_addrs(self.cells_m(), raddrs);
                            }
                            loop
                                invariant
                                    row_it.wf(),
                                    row@.len() + row_it.remaining().len() == raddrs.len(),
                                    row_it.remaining() == raddrs.skip(row@.len() as int),
                                    forall|i: int|
                                        0 <= i < row@.len() ==> value_view(#[trigger] row@[i])
                                            == resolve_addr_spec(self.cells_m(), raddrs[i]),
                                decreases row_it.remaining().len(),
                            {
                                let ghost rbefore = row_it.remaining();
                                match row_it.next() {
                                    Some(a) => {
                                        proof {
                                            assert(rbefore[0] == raddrs[row@.len() as int]);
                                        }
                                        row.push(self.resolve_address(&a));
                                    },
                                    None => {
                                        break ;
                                    },
                                }
                            }
                            proof {
                                crate::interpreter::model::lemma_values_view(row@);
                                lemma_resolve_addrs(self.cells_m(), raddrs);
                                assert(crate::interpreter::model::values_view(row@)
                                    =~= resolve_addrs_spec(self.cells_m(), raddrs));
                            }
                            items.push(Value::List(row));
                        },
                        None => {
                            break ;
                        },
                    }
                }
                proof {
                    crate::interpreter::model::lemma_values_view(items@);
                    assert(rows.len() == range.spec_height());
                    assert(crate::interpreter::model::values_view(items@) =~= resolve_rows_spec(
                        self.cells_m(),
                        range,
                    ));
                }
                Ok(Value::List(items))
            },
        }
    }
}

proof fn lemma_cells_view_found(entries: Seq<(SheetAddress, SheetCell)>, k: int)
    requires
        0 <= k < entries.len(),
        forall|m: int| k < m < entries.len() ==> (#[trigger] entries[m]).0 != entries[k].0,
    ensures
        cells_view(entries).contains_key(entries[k].0),
        cells_view(entries)[entries[k].0] == cell_w(entries[k].1),
    decreases entries.len(),
{
    if k == entries.len() - 1 {
    } else {
        assert(entries.drop_last()[k] == entries[k]);
        assert forall|m: int|
            k < m < entries.drop_last().len() implies (#[trigger] entries.drop_last()[m]).0
            != entries[k].0 by {
            assert(entries.drop_last()[m] == entries[m]);
        }
        lemma_cells_view_found(entries.drop_last(), k);
        assert(entries.last().0 != entries[k].0);
    }
}

proof fn lemma_cells_view_missing(entries: Seq<(SheetAddress, SheetCell)>, a: SheetAddress)
    requires
        forall|m: int| 0 <= m < entries.len() ==> (#[trigger] entries[m]).0 != a,
    ensures
        !cells_view(entries).contains_key(a),
    decreases entries.len(),
{
    if entries.len() > 0 {
        assert forall|m: int|
            0 <= m < entries.drop_last().len() implies (#[trigger] entries.drop_last()[m]).0
            != a by {
            assert(entries.drop_last()[m] == entries[m]);
        }
        lemma_cells_view_missing(entries.drop_last(), a);
    }
}

/// The outcome of running a program afresh against a sheet: a new
/// builtins-rooted environment, the sheet as keyword resolver, the standard
/// fuel budget.
pub open spec fn sheet_formula_outcome(s: Sheet, prog: Seq<InstrView>) -> RunOutcome {
    run_spec(&s, prog, 0, Seq::empty(), crate::debug::builtins_frames(), 1, EVAL_FUEL as nat)
}

/// `contents` names a formula: its first character is `=`.
pub open spec fn is_formula_source(contents: Seq<char>) -> bool {
    contents.len() > 0 && contents[0] == '='
}

/// The program a formula source compiles to: the body after `=` parsed,
/// wrapped as `(begin <prelude forms> <body>)`, compiled.
pub open spec fn formula_program_spec(body: ExprView) -> Result<Seq<InstrView>, ()> {
    match crate::interpreter::compiler::prelude_forms() {
        Option::Some(fs) => crate::interpreter::compiler::compile_spec(
            ExprView::List(seq![ExprView::Symbol("begin"@)] + fs + seq![body]),
        ),
        Option::None => Result::Err(()),
    }
}

/// The subscription entries with every occurrence of `key` removed, in
/// order.
pub open spec fn subs_without(s: Seq<(SheetAddress, u64)>, key: (SheetAddress, u64)) -> Seq<
    (SheetAddress, u64),
>
    decreases s.len(),
{
    if s.len() == 0 {
        Seq::empty()
    } else {
        let d = subs_without(s.drop_last(), key);
        if s.last() == key {
            d
        } else {
            d.push(s.last())
        }
    }
}

/// Two cell maps hold the same cells with the same sources, formulas,
/// programs and references; only computed values may differ.
pub open spec fn same_skeleton(a: Map<SheetAddress, CellW>, b: Map<SheetAddress, CellW>) -> bool {
    &&& a.dom() == b.dom()
    &&& (forall|j: SheetAddress|
        a.contains_key(j) ==> {
            let x = #[trigger] a[j];
            let y = b[j];
            x.source == y.source && x.has_formula == y.has_formula && x.program == y.program
                && x.references == y.references
        })
}

/// `set_cell` succeeds exactly here: any literal write; a formula write
/// whose body parses, compiles with the prelude, evaluates against the
/// sheet as handed in, and whose keywords all read as valid ranges.
pub open spec fn set_cell_accepts(s: Sheet, contents: Seq<char>) -> bool {
    if is_formula_source(contents) {
        match crate::parser::parse_expr_spec(contents.skip(1), 0) {
            Option::Some((v, _j)) => match formula_program_spec(v) {
                Result::Ok(code) => sheet_formula_outcome(s, code) is Done && refs_of(v) is Ok,
                Result::Err(()) => false,
            },
            Option::None => false,
        }
    } else {
        true
    }
}

/// The sheet addresses an expression references: the flat addresses of
/// every keyword, in depth-first order; any keyword that fails to parse as
/// a valid range fails the whole collection.
pub open spec fn refs_of(v: ExprView) -> Result<Seq<SheetAddress>, ()>
    decreases v, 0int,
{
    match v {
        ExprView::Keyword(k) => match parse_range_spec(k) {
            Option::Some(rng) => if rng.spec_valid() {
                Result::Ok(rng.flat_seq())
            } else {
                Result::Err(())
            },
            Option::None => Result::Err(()),
        },
        ExprView::List(es) => refs_of_seq(es),
        _ => Result::Ok(Seq::empty()),
    }
}

pub open spec fn refs_of_seq(es: Seq<ExprView>) -> Result<Seq<SheetAddress>, ()>
    decreases es, 1int,
{
    if es.len() == 0 {
        Result::Ok(Seq::empty())
    } else {
        match (refs_of(es[0]), refs_of_seq(es.drop_first())) {
            (Result::Ok(a), Result::Ok(b)) => Result::Ok(a + b),
            _ => Result::Err(()),
        }
    }
}

/// Collects the addresses an expression references.
#[verifier::loop_isolation(false)]
pub fn get_references_for_expr(expr: &Expr) -> (r: AppResult<Vec<SheetAddress>>)
    ensures
        match refs_of(expr_view(*expr)) {
            Result::Ok(rs) => r matches Ok(v) && v@ == rs,
            Result::Err(()) => r is Err,
        },
    decreases *expr,
{
    match expr {
        Expr::Keyword(kw) => {
            match SheetRange::parse(kw.as_str()) {
                Ok(rng) => {
                    let mut it = rng.addresses_flat();
                    let ghost addrs = it.remaining();
                    let mut v: Vec<SheetAddress> = Vec::new();
                    loop
                        invariant
                            it.wf(),
                            v@.len() + it.remaining().len() == addrs.len(),
                            it.remaining() == addrs.skip(v@.len() as int),
                            v@ == addrs.take(v@.len() as int),
                        decreases it.remaining().len(),
                    {
                        let ghost before = it.remaining();
                        match it.next() {
                            Some(a) => {
                                proof {
                                    assert(before[0] == addrs[v@.len() as int]);
                                }
                                v.push(a);
                                proof {
                                    assert(v@ =~= addrs.take(v@.len() as int));
                                }
                            },
                            None => {
                                break ;
                            },
                        }
                    }
                    proof {
                        assert(v@ =~= addrs);
                    }
                    Ok(v)
                },
                Err(e) => Err(e),
            }
        },
        Expr::List(es) => {
            let ghost esv = crate::parser::exprs_view(es@);
            proof {
                crate::parser::lemma_exprs_view(es@);
                assert(decreases_to!(*expr => expr->List_0));
                assert(expr->List_0 == *es);
                assert(decreases_to!(*es => es@));
                assert forall|i: int|
                    0 <= i < es@.len() implies decreases_to!(*expr => es@[i]) by {
                    assert(decreases_to!(es@ => es@[i]));
                }
                assert(esv.skip(0) =~= esv);
            }
            let mut v: Vec<SheetAddress> = Vec::new();
            let mut k: usize = 0;
            while k < es.len()
                invariant
                    k <= es@.len(),
                    (match refs_of_seq(esv.skip(k as int)) {
                        Result::Ok(rest) => refs_of_seq(esv) matches Result::Ok(whole) && v@ + rest
                            == whole,
                        Result::Err(()) => refs_of_seq(esv) is Err,
                    }),
                decreases es@.len() - k,
            {
                proof {
                    assert(esv.skip(k as int)[0] == esv[k as int]);
                    assert(esv.skip(k as int).drop_first() =~= esv.skip(k + 1));
                }
                match get_references_for_expr(&es[k]) {
                    Ok(mut child) => {
                        let ghost v0 = v@;
                        let ghost c0 = child@;
                        v.append(&mut child);
                        proof {
                            assert(v@ == v0 + c0);
                        }
                    },
                    Err(e) => {
                        return Err(e);
                    },
                }
                k = k + 1;
            }
            proof {
                assert(esv.skip(es@.len() as int).len() == 0);
                match refs_of_seq(esv.skip(es@.len() as int)) {
                    Result::Ok(rest) => {
                        assert(rest =~= Seq::<SheetAddress>::empty());
                        assert(v@ + rest =~= v@);
                    },
                    Result::Err(()) => {},
                }
            }
            Ok(v)
        },
        _ => {
            let v: Vec<SheetAddress> = Vec::new();
            proof {
                assert(v@ =~= Seq::<SheetAddress>::empty());
            }
            Ok(v)
        },
    }
}

/// Equality on sheet addresses is plain field equality.
pub proof fn lemma_addr_eq_ok()
    ensures
        eq_well_behaved::<SheetAddress>(),
{
}

impl Sheet {
    /// Appends (and thereby stores) a cell under `address`.
    fn insert_cell(&mut self, address: SheetAddress, cell: SheetCell)
        ensures
            final(self).cells_m() == old(self).cells_m().insert(address, cell_w(cell)),
            final(self).subscriptions@ == old(self).subscriptions@,
            final(self).pending@ == old(self).pending@,
            final(self).dep_graph == old(self).dep_graph,
    {
        let ghost c0 = self.cells@;
        self.cells.push((address, cell));
        proof {
            assert(self.cells@.drop_last() =~= c0);
        }
    }

    /// Duplicates the stored formula of a cell, if it has one.
    fn copy_formula(cell: &SheetCell) -> (r: Option<SheetFormula>)
        ensures
            match cell.formula {
                Option::Some(f) => r matches Some(g) && g.address == f.address
                    && instrs_view(g.program.instructions@) == instrs_view(f.program.instructions@)
                    && g.references@ == f.references@ && g.source@ == f.source@,
                Option::None => r is None,
            },
    {
        match &cell.formula {
            Some(f) => Some(
                SheetFormula {
                    address: f.address,
                    program: Program { instructions: copy_instructions(&f.program.instructions) },
                    references: crate::dep_graph::vec_copy(&f.references),
                    source: f.source.clone(),
                },
            ),
            None => None,
        }
    }

    /// Re-evaluates one cell: when it holds a formula, the formula's
    /// program runs afresh against the sheet as it now stands, and the
    /// computed value (or an invalid marker when evaluation fails) replaces
    /// the stored one; nothing else changes, and a change queues a
    /// notification.
    fn reeval_cell(&mut self, a: &SheetAddress)
        requires
            old(self).wf(),
        ensures
            final(self).wf(),
            final(self).subscriptions@ == old(self).subscriptions@,
            final(self).dep_graph == old(self).dep_graph,
            final(self).cells_m().dom() == old(self).cells_m().dom(),
            forall|k: SheetAddress|
                k != *a && old(self).cells_m().contains_key(k) ==> (#[trigger] final(self).cells_m()[k]) == old(self).cells_m()[k],
            old(self).cells_m().contains_key(*a) ==> {
                let oldc = old(self).cells_m()[*a];
                let newc = final(self).cells_m()[*a];
                newc.source == oldc.source && newc.has_formula == oldc.has_formula && newc.program
                    == oldc.program && newc.references == oldc.references
            },
            (old(self).cells_m().contains_key(*a) && old(self).cells_m()[*a].has_formula)
                ==> match sheet_formula_outcome(*old(self), old(self).cells_m()[*a].program) {
                RunOutcome::Done { value, .. } => final(self).cells_m()[*a].value
                    == cell_of_value(value),
                RunOutcome::Fail => final(self).cells_m()[*a].value is Invalid,
            },
            !(old(self).cells_m().contains_key(*a) && old(self).cells_m()[*a].has_formula)
                ==> final(self).cells_m() == old(self).cells_m(),
            (old(self).cells_m().contains_key(*a) && old(self).cells_m()[*a].has_formula && old(
                self,
            ).subscribed(*a)) ==> final(self).pending@ == old(self).pending@.push(*a),
            !(old(self).cells_m().contains_key(*a) && old(self).cells_m()[*a].has_formula && old(
                self,
            ).subscribed(*a)) ==> final(self).pending@ == old(self).pending@,
    {
        let replacement: Option<SheetCell> = match self.find_cell(a) {
            Some(cell) => {
                match Self::copy_formula(cell) {
                    Some(formula) => {
                        let source = cell.source.clone();
                        let prog = Program {
                            instructions: copy_instructions(&formula.program.instructions),
                        };
                        let env = Env::with_builtins();
                        proof {
                            assert(env.frames_v() =~= crate::debug::builtins_frames());
                        }
                        let value = match eval(&prog, env, &*self) {
                            Ok(v) => SheetCellComputedValue::from_interpreter_value(v),
                            Err(e) => {
                                let mut m = String::from_str("Formula failed: ");
                                m.append(e.message().as_str());
                                SheetCellComputedValue::Invalid { message: m }
                            },
                        };
                        Some(SheetCell { computed_value: value, formula: Some(formula), source })
                    },
                    None => None,
                }
            },
            None => None,
        };
        match replacement {
            Some(cell) => {
                proof {
                    assert(self.cells_m().contains_key(*a));
                }
                let ghost pre = self.cells_m();
                self.insert_cell(*a, cell);
                proof {
                    assert(self.cells_m().dom() =~= pre.dom());
                }
                self.emit_signal(a);
            },
            None => {},
        }
    }

    /// Re-evaluates every formula cell reachable from `start` over the
    /// reverse-dependency edges, breadth first, each cell at most once and
    /// at most `MAX_ITERS` steps in all. Only computed values change, and
    /// only those of formula cells; every changed value is a fresh
    /// evaluation of that cell's own stored program against some
    /// intermediate sheet state holding the same cells, sources, formulas,
    /// programs and references; every changed subscribed cell queues a
    /// notification. The cell written first is `start` itself, evaluated
    /// against the sheet as handed in, and no later step touches it again.
    #[verifier::loop_isolation(false)]
    #[verifier::rlimit(100)]
    fn propagate(&mut self, start: SheetAddress)
        requires
            old(self).wf(),
        ensures
            final(self).wf(),
            final(self).subscriptions@ == old(self).subscriptions@,
            final(self).dep_graph == old(self).dep_graph,
            same_skeleton(final(self).cells_m(), old(self).cells_m()),
            final(self).pending@.len() >= old(self).pending@.len(),
            final(self).pending@.take(old(self).pending@.len() as int) == old(self).pending@,
            (old(self).cells_m().contains_key(start) && old(self).cells_m()[start].has_formula)
                ==> match sheet_formula_outcome(*old(self), old(self).cells_m()[start].program) {
                RunOutcome::Done { value, .. } => final(self).cells_m()[start].value
                    == cell_of_value(value),
                RunOutcome::Fail => final(self).cells_m()[start].value is Invalid,
            },
            (old(self).cells_m().contains_key(start) && !old(self).cells_m()[start].has_formula)
                ==> final(self).cells_m()[start] == old(self).cells_m()[start],
            // only formula cells change value
            forall|k: SheetAddress|
                old(self).cells_m().contains_key(k) && (#[trigger] final(self).cells_m()[k]).value
                    != old(self).cells_m()[k].value ==> final(self).cells_m()[k].has_formula,
            // every changed subscribed cell was queued for notification
            forall|k: SheetAddress|
                old(self).cells_m().contains_key(k) && (#[trigger] final(self).cells_m()[k]).value
                    != old(self).cells_m()[k].value && old(self).subscribed(k) ==> exists|i: int|
                    old(self).pending@.len() <= i < final(self).pending@.len()
                        && final(self).pending@[i] == k,
            // every changed value is a fresh evaluation of the cell's own
            // program against some same-skeleton sheet state
            forall|k: SheetAddress|
                old(self).cells_m().contains_key(k) && (#[trigger] final(self).cells_m()[k]).value
                    != old(self).cells_m()[k].value ==> exists|mid: Sheet|
                    {
                        &&& #[trigger] same_skeleton(mid.cells_m(), final(self).cells_m())
                        &&& match sheet_formula_outcome(mid, final(self).cells_m()[k].program) {
                            RunOutcome::Done { value, .. } => final(self).cells_m()[k].value
                                == cell_of_value(value),
                            RunOutcome::Fail => final(self).cells_m()[k].value is Invalid,
                        }
                    },
            // changes stay within the transitive dependents of `start`
            forall|k: SheetAddress|
                old(self).cells_m().contains_key(k) && (#[trigger] final(self).cells_m()[k]).value
                    != old(self).cells_m()[k].value ==> depends_on_trans(
                    old(self).dep_graph.deps_m(),
                    start,
                    k,
                ),
    {
        let ghost gm = self.dep_graph.deps_m();
        proof {
            assert(depends_within(gm, start, start, 0nat));
            assert(depends_on_trans(gm, start, start));
        }
        let ghost pend0 = self.pending@;
        let ghost snap0 = *self;
        self.reeval_cell(&start);
        proof {
            if self.cells_m().contains_key(start) && self.cells_m()[start].value
                != old(self).cells_m()[start].value {
                assert(same_skeleton(snap0.cells_m(), old(self).cells_m()));
                assert(match sheet_formula_outcome(snap0, old(self).cells_m()[start].program) {
                    RunOutcome::Done { value, .. } => self.cells_m()[start].value
                        == cell_of_value(value),
                    RunOutcome::Fail => self.cells_m()[start].value is Invalid,
                });
            }
            assert(self.pending@.take(pend0.len() as int) =~= pend0);
            assert forall|k: SheetAddress|
                old(self).cells_m().contains_key(k) && (#[trigger] self.cells_m()[k]).value != old(
                self,
            ).cells_m()[k].value && old(self).subscribed(k) implies exists|i: int|
                pend0.len() <= i < self.pending@.len() && self.pending@[i] == k by {
                assert(k == start);
                assert(old(self).cells_m()[start].has_formula);
                assert(self.pending@ == pend0.push(start));
                assert(self.pending@[pend0.len() as int] == start);
            }
        }
        let ghost start_cell_opt: Option<CellW> = if self.cells_m().contains_key(start) {
            Some(self.cells_m()[start])
        } else {
            None
        };
        let mut seen: Vec<SheetAddress> = Vec::new();
        seen.push(start);
        proof {
            lemma_addr_eq_ok();
            assert(seen@[0] == start);
            assert(seen@.contains(start));
        }
        let mut work = self.dep_graph.get_direct_dependents(start);
        proof {
            assert forall|i: int|
                0 <= i < work@.len() implies depends_on_trans(gm, start, #[trigger] work@[i]) by {
                assert(work@.contains(work@[i]));
                assert(has_edge(gm, work@[i], start));
                lemma_depends_step(gm, start, start, work@[i]);
            }
        }
        let mut head: usize = 0;
        let mut iters: u64 = 1;
        while head < work.len() && iters < MAX_ITERS
            invariant
                self.wf(),
                head <= work@.len(),
                iters <= MAX_ITERS,
                seen@.contains(start),
                self.subscriptions@ == old(self).subscriptions@,
                self.dep_graph == old(self).dep_graph,
                self.cells_m().dom() == old(self).cells_m().dom(),
                self.pending@.len() >= pend0.len(),
                self.pending@.take(pend0.len() as int) == pend0,
                gm == self.dep_graph.deps_m(),
                forall|i: int|
                    0 <= i < work@.len() ==> depends_on_trans(gm, start, #[trigger] work@[i]),
                forall|k: SheetAddress|
                    old(self).cells_m().contains_key(k) && (#[trigger] self.cells_m()[k]).value
                        != old(self).cells_m()[k].value ==> depends_on_trans(gm, start, k),
                start_cell_opt == if self.cells_m().contains_key(start) {
                    Some(self.cells_m()[start])
                } else {
                    None::<CellW>
                },
                forall|k: SheetAddress|
                    old(self).cells_m().contains_key(k) ==> {
                        let oldc = old(self).cells_m()[k];
                        let newc = #[trigger] self.cells_m()[k];
                        newc.source == oldc.source && newc.has_formula == oldc.has_formula
                            && newc.program == oldc.program && newc.references == oldc.references
                    },
                forall|k: SheetAddress|
                    old(self).cells_m().contains_key(k) && (#[trigger] self.cells_m()[k]).value
                        != old(self).cells_m()[k].value ==> self.cells_m()[k].has_formula,
                forall|k: SheetAddress|
                    old(self).cells_m().contains_key(k) && (#[trigger] self.cells_m()[k]).value
                        != old(self).cells_m()[k].value && old(self).subscribed(k)
                        ==> exists|i: int|
                        pend0.len() <= i < self.pending@.len() && self.pending@[i] == k,
                forall|k: SheetAddress|
                    old(self).cells_m().contains_key(k) && (#[trigger] self.cells_m()[k]).value
                        != old(self).cells_m()[k].value ==> exists|mid: Sheet|
                        {
                            &&& #[trigger] same_skeleton(mid.cells_m(), old(self).cells_m())
                            &&& match sheet_formula_outcome(
                                mid,
                                old(self).cells_m()[k].program,
                            ) {
                                RunOutcome::Done { value, .. } => self.cells_m()[k].value
                                    == cell_of_value(value),
                                RunOutcome::Fail => self.cells_m()[k].value is Invalid,
                            }
                        },
            decreases MAX_ITERS - iters,
        {
            iters = iters + 1;
            let a = work[head];
            head = head + 1;
            if address_vec_contains(&seen, &a) {
                continue ;
            }
            proof {
                assert(a != start);
            }
            let ghost seen0 = seen@;
            seen.push(a);
            proof {
                let w = choose|w: int| 0 <= w < seen0.len() && seen0[w] == start;
                assert(seen@[w] == start);
                assert(seen@.contains(start));
            }
            let ghost snap = *self;
            let ghost pend_pre = self.pending@;
            self.reeval_cell(&a);
            proof {
                lemma_addr_eq_ok();
                assert(self.pending@.take(pend0.len() as int) =~= pend0);
                assert forall|k: SheetAddress|
                    old(self).cells_m().contains_key(k) && (#[trigger] self.cells_m()[k]).value
                        != old(self).cells_m()[k].value && old(self).subscribed(k)
                        implies exists|i: int|
                    pend0.len() <= i < self.pending@.len() && self.pending@[i] == k by {
                    if k == a {
                        if snap.cells_m()[a].value != old(self).cells_m()[a].value || self.cells_m()[a].value != snap.cells_m()[a].value {
                        }
                        if self.cells_m()[a].value != snap.cells_m()[a].value {
                            // this step rewrote `a`, so `a` held a formula and
                            // the signal was queued at the end of the pending
                            assert(snap.cells_m().contains_key(a)
                                && snap.cells_m()[a].has_formula);
                            assert(self.pending@ == pend_pre.push(a));
                            assert(self.pending@[pend_pre.len() as int] == a);
                        } else {
                            let i = choose|i: int|
                                pend0.len() <= i < pend_pre.len() && pend_pre[i] == k;
                            assert(self.pending@[i] == k);
                        }
                    } else {
                        let i = choose|i: int|
                            pend0.len() <= i < pend_pre.len() && pend_pre[i] == k;
                        assert(self.pending@[i] == k);
                    }
                }
                assert forall|k: SheetAddress|
                    old(self).cells_m().contains_key(k) && (#[trigger] self.cells_m()[k]).value
                        != old(self).cells_m()[k].value implies exists|mid: Sheet|
                    {
                        &&& #[trigger] same_skeleton(mid.cells_m(), old(self).cells_m())
                        &&& match sheet_formula_outcome(mid, old(self).cells_m()[k].program) {
                            RunOutcome::Done { value, .. } => self.cells_m()[k].value
                                == cell_of_value(value),
                            RunOutcome::Fail => self.cells_m()[k].value is Invalid,
                        }
                    } by {
                    if k == a && self.cells_m()[a].value != snap.cells_m()[a].value {
                        assert(snap.cells_m().contains_key(a) && snap.cells_m()[a].has_formula);
                        assert(same_skeleton(snap.cells_m(), old(self).cells_m()));
                        assert(snap.cells_m()[a].program == old(self).cells_m()[a].program);
                        assert(match sheet_formula_outcome(snap, old(self).cells_m()[a].program) {
                            RunOutcome::Done { value, .. } => self.cells_m()[a].value
                                == cell_of_value(value),
                            RunOutcome::Fail => self.cells_m()[a].value is Invalid,
                        });
                    } else {
                        assert(self.cells_m()[k] == snap.cells_m()[k]);
                        let mid0 = choose|mid: Sheet|
                            {
                                &&& #[trigger] same_skeleton(mid.cells_m(), old(self).cells_m())
                                &&& match sheet_formula_outcome(
                                    mid,
                                    old(self).cells_m()[k].program,
                                ) {
                                    RunOutcome::Done { value, .. } => snap.cells_m()[k].value
                                        == cell_of_value(value),
                                    RunOutcome::Fail => snap.cells_m()[k].value is Invalid,
                                }
                            };
                        assert(same_skeleton(mid0.cells_m(), old(self).cells_m()));
                    }
                }
            }
            proof {
                assert(depends_on_trans(gm, start, a));
                assert forall|k: SheetAddress|
                    old(self).cells_m().contains_key(k) && (#[trigger] self.cells_m()[k]).value
                        != old(self).cells_m()[k].value implies depends_on_trans(
                    gm,
                    start,
                    k,
                ) by {
                    if self.cells_m()[k].value != snap.cells_m()[k].value {
                        assert(k == a);
                    }
                }
            }
            let mut dependents = self.dep_graph.get_direct_dependents(a);
            let ghost work0 = work@;
            let ghost deps0 = dependents@;
            work.append(&mut dependents);
            proof {
                assert forall|i: int|
                    0 <= i < work@.len() implies depends_on_trans(gm, start, #[trigger] work@[i]) by {
                    if i < work0.len() {
                        assert(work@[i] == work0[i]);
                    } else {
                        assert(work@[i] == deps0[i - work0.len()]);
                        assert(deps0.contains(deps0[i - work0.len()]));
                        assert(has_edge(gm, work@[i], a));
                        lemma_depends_step(gm, start, a, work@[i]);
                    }
                }
            }
        }
        proof {
            // the ensured form compares skeletons with the final state; the
            // walk never changed them, so the invariant's form carries over
            assert(same_skeleton(final(self).cells_m(), old(self).cells_m()));
            assert forall|k: SheetAddress|
                old(self).cells_m().contains_key(k) && (#[trigger] final(self).cells_m()[k]).value
                    != old(self).cells_m()[k].value implies exists|mid: Sheet|
                {
                    &&& #[trigger] same_skeleton(mid.cells_m(), final(self).cells_m())
                    &&& match sheet_formula_outcome(mid, final(self).cells_m()[k].program) {
                        RunOutcome::Done { value, .. } => final(self).cells_m()[k].value
                            == cell_of_value(value),
                        RunOutcome::Fail => final(self).cells_m()[k].value is Invalid,
                    }
                } by {
                let mid0 = choose|mid: Sheet|
                    {
                        &&& #[trigger] same_skeleton(mid.cells_m(), old(self).cells_m())
                        &&& match sheet_formula_outcome(mid, old(self).cells_m()[k].program) {
                            RunOutcome::Done { value, .. } => final(self).cells_m()[k].value
                                == cell_of_value(value),
                            RunOutcome::Fail => final(self).cells_m()[k].value is Invalid,
                        }
                    };
                assert(old(self).cells_m()[k].program == final(self).cells_m()[k].program);
                assert(same_skeleton(mid0.cells_m(), final(self).cells_m()));
            }
        }
    }

    /// Writes a cell from raw text. A leading `=` makes the rest a formula:
    /// it is compiled with the prelude, evaluated against the sheet, and
    /// its references feed the dependency graph; text that is in full a
    /// number literal stores a number; anything else stores plain text. The
    /// cell's dependents are then re-evaluated breadth-first. On an error
    /// (parse, compile or first evaluation) nothing changes.
    #[verifier::loop_isolation(false)]
    #[verifier::rlimit(100)]
    pub fn set_cell(&mut self, address: SheetAddress, contents: String) -> (r: AppResult<()>)
        requires
            old(self).wf(),
        ensures
            final(self).wf(),
            (r is Ok) <==> set_cell_accepts(*old(self), contents@),
            r is Err ==> *final(self) == *old(self),
            // the stored cell's kind, program and references follow the
            // source text's classification
            r is Ok ==> (if is_formula_source(contents@) {
                match crate::parser::parse_expr_spec(contents@.skip(1), 0) {
                    Option::Some((v, _j)) => {
                        &&& final(self).cells_m()[address].has_formula
                        &&& (match formula_program_spec(v) {
                            Result::Ok(code) => final(self).cells_m()[address].program == code,
                            Result::Err(()) => false,
                        })
                        &&& (match refs_of(v) {
                            Result::Ok(rs) => final(self).cells_m()[address].references == rs,
                            Result::Err(()) => false,
                        })
                    },
                    Option::None => false,
                }
            } else {
                !final(self).cells_m()[address].has_formula
            }),
            r is Ok ==> {
                &&& final(self).cells_m().contains_key(address)
                &&& final(self).cells_m()[address].source == contents@
                &&& final(self).cells_m().dom() == old(self).cells_m().dom().insert(address)
                &&& final(self).subscriptions@ == old(self).subscriptions@
                &&& (forall|k: SheetAddress|
                    k != address && old(self).cells_m().contains_key(k) ==> {
                        let oldc = old(self).cells_m()[k];
                        let newc = #[trigger] final(self).cells_m()[k];
                        newc.source == oldc.source && newc.has_formula == oldc.has_formula
                            && newc.program == oldc.program && newc.references == oldc.references
                    })
            },
            // notifications only queue up, the written address is notified
            // when subscribed, and so is every other cell whose value
            // changed
            r is Ok ==> final(self).pending@.len() >= old(self).pending@.len()
                && final(self).pending@.take(old(self).pending@.len() as int)
                == old(self).pending@,
            r is Ok && old(self).subscribed(address) ==> exists|i: int|
                old(self).pending@.len() <= i < final(self).pending@.len()
                    && final(self).pending@[i] == address,
            r is Ok ==> (forall|k: SheetAddress|
                k != address && old(self).cells_m().contains_key(k)
                    && (#[trigger] final(self).cells_m()[k]).value
                    != old(self).cells_m()[k].value && old(self).subscribed(k)
                    ==> exists|i: int|
                    old(self).pending@.len() <= i < final(self).pending@.len()
                        && final(self).pending@[i] == k),
            // changes beyond the written cell stay within its transitive
            // dependents
            r is Ok ==> (forall|k: SheetAddress|
                k != address && old(self).cells_m().contains_key(k)
                    && (#[trigger] final(self).cells_m()[k]).value
                    != old(self).cells_m()[k].value ==> depends_on_trans(
                    final(self).dep_graph.deps_m(),
                    address,
                    k,
                )),
            // any other cell whose value changed is a formula cell, and its
            // new value is a fresh evaluation of its own stored program
            // against some same-skeleton sheet state
            r is Ok ==> (forall|k: SheetAddress|
                k != address && old(self).cells_m().contains_key(k)
                    && (#[trigger] final(self).cells_m()[k]).value
                    != old(self).cells_m()[k].value
                    ==> final(self).cells_m()[k].has_formula && exists|mid: Sheet|
                    {
                        &&& #[trigger] same_skeleton(mid.cells_m(), final(self).cells_m())
                        &&& match sheet_formula_outcome(mid, final(self).cells_m()[k].program) {
                            RunOutcome::Done { value, .. } => final(self).cells_m()[k].value
                                == cell_of_value(value),
                            RunOutcome::Fail => final(self).cells_m()[k].value is Invalid,
                        }
                    }),
            // the graph mirrors the written cell's declared references
            r is Ok ==> (final(self).cells_m()[address].has_formula ==> forall|y: SheetAddress|
                has_edge(#[trigger] final(self).dep_graph.deps_m(), address, y)
                    <==> final(self).cells_m()[address].references.contains(y)),
            r is Ok ==> (!final(self).cells_m()[address].has_formula
                ==> !final(self).dep_graph.deps_m().contains_key(address)),
            // a written literal stores exactly its classification
            r is Ok && !final(self).cells_m()[address].has_formula ==> {
                &&& (is_full_number(contents@) ==> final(self).cells_m()[address].value
                    == CellView::Num(crate::numeric::float_of_chars(contents@)))
                &&& (!is_full_number(contents@) ==> final(self).cells_m()[address].value
                    == CellView::Text(contents@))
            },
            // a written formula stores the fresh evaluation of its program:
            // first against the sheet as it was, and the kept value against
            // the sheet state holding that first result
            r is Ok && final(self).cells_m()[address].has_formula ==> {
                let cw = final(self).cells_m()[address];
                match sheet_formula_outcome(*old(self), cw.program) {
                    RunOutcome::Done { value: v0, .. } => exists|mid: Sheet|
                        {
                            &&& (#[trigger] mid.cells_m()) == old(self).cells_m().insert(
                                address,
                                CellW {
                                    value: cell_of_value(v0),
                                    has_formula: true,
                                    program: cw.program,
                                    references: cw.references,
                                    source: contents@,
                                },
                            )
                            &&& match sheet_formula_outcome(mid, cw.program) {
                                RunOutcome::Done { value, .. } => cw.value == cell_of_value(value),
                                RunOutcome::Fail => cw.value is Invalid,
                            }
                        },
                    RunOutcome::Fail => false,
                }
            },
    {
        let interpreted = match interpret_cell(contents.as_str()) {
            Ok(i) => i,
            Err(e) => {
                return Err(e);
            },
        };
        proof {
            lemma_addr_eq_ok();
        }
        let new_cell: SheetCell = match interpreted {
            InterpretCellResult::Number(n) => SheetCell {
                computed_value: SheetCellComputedValue::Number(n),
                formula: None,
                source: contents,
            },
            InterpretCellResult::Text(s) => SheetCell {
                computed_value: SheetCellComputedValue::Text(s),
                formula: None,
                source: contents,
            },
            InterpretCellResult::Expr(expr) => {
                let program = match compile_with_prelude(&expr) {
                    Ok(p) => p,
                    Err(e) => {
                        return Err(e);
                    },
                };
                let env = Env::with_builtins();
                proof {
                    assert(env.frames_v() =~= crate::debug::builtins_frames());
                }
                let result = match eval(&program, env, &*self) {
                    Ok(v) => v,
                    Err(e) => {
                        return Err(e);
                    },
                };
                proof {
                    assert(match sheet_formula_outcome(*old(self), program.view_code()) {
                        RunOutcome::Done { value, .. } => value_view(result) == value,
                        RunOutcome::Fail => false,
                    });
                }
                let references = match get_references_for_expr(&expr) {
                    Ok(rs) => rs,
                    Err(e) => {
                        return Err(e);
                    },
                };
                SheetCell {
                    computed_value: SheetCellComputedValue::from_interpreter_value(result),
                    formula: Some(
                        SheetFormula {
                            address,
                            program,
                            references,
                            source: contents.clone(),
                        },
                    ),
                    source: contents,
                }
            },
        };
        let graph2 = match &new_cell.formula {
            Some(formula) => self.dep_graph.update_edges(address, &formula.references),
            None => self.dep_graph.clear_id(&address),
        };
        self.dep_graph = graph2;
        let ghost ncw = cell_w(new_cell);
        let ghost pre = self.cells_m();
        self.insert_cell(address, new_cell);
        proof {
            assert(self.cells_m().dom() =~= pre.dom().insert(address));
        }
        self.emit_signal(&address);
        let ghost mid_sheet = *self;
        let ghost pend_mid = self.pending@;
        self.propagate(address);
        proof {
            // the pending queue only grew, with the written address first
            // when subscribed
            assert(final(self).pending@.take(pend_mid.len() as int) == pend_mid);
            assert(final(self).pending@.take(old(self).pending@.len() as int) =~= old(
                self,
            ).pending@);
            if old(self).subscribed(address) {
                assert(pend_mid == old(self).pending@.push(address));
                assert(pend_mid[old(self).pending@.len() as int] == address);
                assert(final(self).pending@.take(pend_mid.len() as int)[old(
                    self,
                ).pending@.len() as int] == address);
                assert(final(self).pending@[old(self).pending@.len() as int] == address);
            }
            // propagate's per-cell clauses, re-based from the post-insert
            // state to the state handed in
            assert forall|k: SheetAddress|
                k != address && old(self).cells_m().contains_key(k)
                    && (#[trigger] final(self).cells_m()[k]).value
                    != old(self).cells_m()[k].value && old(self).subscribed(k)
                    implies exists|i: int|
                old(self).pending@.len() <= i < final(self).pending@.len()
                    && final(self).pending@[i] == k by {
                assert(mid_sheet.cells_m()[k] == old(self).cells_m()[k]);
                assert(mid_sheet.subscribed(k) == old(self).subscribed(k));
                let i = choose|i: int|
                    pend_mid.len() <= i < final(self).pending@.len() && final(self).pending@[i]
                        == k;
                assert(old(self).pending@.len() <= i);
            }
            assert forall|k: SheetAddress|
                k != address && old(self).cells_m().contains_key(k)
                    && (#[trigger] final(self).cells_m()[k]).value
                    != old(self).cells_m()[k].value implies final(self).cells_m()[k].has_formula
                && exists|mid: Sheet|
                {
                    &&& #[trigger] same_skeleton(mid.cells_m(), final(self).cells_m())
                    &&& match sheet_formula_outcome(mid, final(self).cells_m()[k].program) {
                        RunOutcome::Done { value, .. } => final(self).cells_m()[k].value
                            == cell_of_value(value),
                        RunOutcome::Fail => final(self).cells_m()[k].value is Invalid,
                    }
                } by {
                assert(mid_sheet.cells_m()[k] == old(self).cells_m()[k]);
            }
            assert forall|k: SheetAddress|
                k != address && old(self).cells_m().contains_key(k)
                    && (#[trigger] final(self).cells_m()[k]).value
                    != old(self).cells_m()[k].value implies depends_on_trans(
                final(self).dep_graph.deps_m(),
                address,
                k,
            ) by {
                assert(mid_sheet.cells_m()[k] == old(self).cells_m()[k]);
                assert(final(self).dep_graph == mid_sheet.dep_graph);
            }
            if ncw.has_formula {
                let cw = self.cells_m()[address];
                assert(mid_sheet.cells_m() == pre.insert(address, ncw));
                assert(mid_sheet.cells_m()[address] == ncw);
                assert(cw.program == ncw.program && cw.references == ncw.references && cw.source
                    == ncw.source);
                assert(ncw == CellW {
                    value: ncw.value,
                    has_formula: true,
                    program: cw.program,
                    references: cw.references,
                    source: contents@,
                });
                match sheet_formula_outcome(*old(self), cw.program) {
                    RunOutcome::Done { value: v0, .. } => {
                        assert(ncw.value == cell_of_value(v0));
                        assert(mid_sheet.cells_m() == old(self).cells_m().insert(
                            address,
                            CellW {
                                value: cell_of_value(v0),
                                has_formula: true,
                                program: cw.program,
                                references: cw.references,
                                source: contents@,
                            },
                        ));
                        assert(match sheet_formula_outcome(mid_sheet, cw.program) {
                            RunOutcome::Done { value, .. } => cw.value == cell_of_value(value),
                            RunOutcome::Fail => cw.value is Invalid,
                        });
                    },
                    RunOutcome::Fail => {
                        assert(false);
                    },
                }
            }
        }
        Ok(())
    }
}

pub open spec fn digit_of(d: int) -> char {
    if d == 0 {
        '0'
    } else if d == 1 {
        '1'
    } else if d == 2 {
        '2'
    } else if d == 3 {
        '3'
    } else if d == 4 {
        '4'
    } else if d == 5 {
        '5'
    } else if d == 6 {
        '6'
    } else if d == 7 {
        '7'
    } else if d == 8 {
        '8'
    } else {
        '9'
    }
}

/// The decimal digits of a non-negative number.
pub open spec fn nat_text(n: int) -> Seq<char>
    decreases n,
{
    if n < 10 {
        seq![digit_of(n)]
    } else {
        nat_text(n / 10).push(digit_of(n % 10))
    }
}

/// The decimal rendering of an integer, a minus sign when negative.
pub open spec fn int_text(v: int) -> Seq<char> {
    if v < 0 {
        seq!['-'] + nat_text(-v)
    } else {
        nat_text(v)
    }
}

fn digit_char(d: u64) -> (r: char)
    requires
        d < 10,
    ensures
        r == digit_of(d as int),
{
    if d == 0 {
        '0'
    } else if d == 1 {
        '1'
    } else if d == 2 {
        '2'
    } else if d == 3 {
        '3'
    } else if d == 4 {
        '4'
    } else if d == 5 {
        '5'
    } else if d == 6 {
        '6'
    } else if d == 7 {
        '7'
    } else if d == 8 {
        '8'
    } else {
        '9'
    }
}

fn u64_text(n: u64) -> (r: Vec<char>)
    ensures
        r@ == nat_text(n as int),
    decreases n,
{
    if n < 10 {
        let mut v: Vec<char> = Vec::new();
        v.push(digit_char(n));
        proof {
            assert(v@ =~= seq![digit_of(n as int)]);
        }
        v
    } else {
        proof {
            assert(n / 10 < n) by (nonlinear_arith)
                requires
                    n >= 10,
            ;
        }
        let mut v = u64_text(n / 10);
        v.push(digit_char(n % 10));
        v
    }
}

fn i32_text(n: i32) -> (r: Vec<char>)
    ensures
        r@ == int_text(n as int),
{
    if n >= 0 {
        u64_text(n as u64)
    } else {
        let mag: u64 = (-(n as i64)) as u64;
        let mut v: Vec<char> = Vec::new();
        v.push('-');
        let mut digits = u64_text(mag);
        let ghost d0 = digits@;
        v.append(&mut digits);
        proof {
            assert(v@ =~= seq!['-'] + d0);
        }
        v
    }
}

/// The DOT label of an address: its row and column numbers.
pub open spec fn addr_text(a: SheetAddress) -> Seq<char> {
    "r"@ + int_text(a.row as int) + "c"@ + int_text(a.col as int)
}

/// One DOT line per edge, dependent pointing at its dependency.
pub open spec fn dot_lines(es: Seq<(SheetAddress, SheetAddress)>) -> Seq<char>
    decreases es.len(),
{
    if es.len() == 0 {
        Seq::empty()
    } else {
        dot_lines(es.drop_last()) + "  "@ + addr_text(es.last().0) + " -> "@ + addr_text(
            es.last().1,
        ) + ";\n"@
    }
}

pub open spec fn dot_text(es: Seq<(SheetAddress, SheetAddress)>) -> Seq<char> {
    "digraph dependencies {\n"@ + dot_lines(es) + "}\n"@
}

impl Sheet {
    /// The dependency graph as a DOT document: one line per edge, each edge
    /// of the graph exactly represented (in an unspecified order).
    #[verifier::loop_isolation(false)]
    pub fn debug_graphviz(&self) -> (r: String)
        requires
            self.wf(),
        ensures
            r@ == dot_text(crate::dep_graph::edges_list(self.dep_graph.deps@)),
            forall|p: (SheetAddress, SheetAddress)| #[trigger]
                crate::dep_graph::edges_list(self.dep_graph.deps@).contains(p) <==> has_edge(
                self.dep_graph.deps_m(),
                p.0,
                p.1,
            ),
    {
        proof {
            lemma_addr_eq_ok();
        }
        let edges = self.dep_graph.edges();
        let ghost esv = edges@;
        let mut m = String::from_str("digraph dependencies {\n");
        let mut k: usize = 0;
        while k < edges.len()
            invariant
                k <= esv.len(),
                edges@ == esv,
                m@ == "digraph dependencies {\n"@ + dot_lines(esv.take(k as int)),
            decreases esv.len() - k,
        {
            proof {
                assert(esv.take(k + 1).drop_last() =~= esv.take(k as int));
                assert(esv.take(k + 1).last() == esv[k as int]);
            }
            m.append("  ");
            let from_text = crate::numeric::chars_to_string(&addr_chars(&edges[k].0));
            m.append(from_text.as_str());
            m.append(" -> ");
            let to_text = crate::numeric::chars_to_string(&addr_chars(&edges[k].1));
            m.append(to_text.as_str());
            m.append(";\n");
            k = k + 1;
        }
        proof {
            assert(esv.take(esv.len() as int) =~= esv);
        }
        m.append("}\n");
        m
    }
}

fn addr_chars(a: &SheetAddress) -> (r: Vec<char>)
    ensures
        r@ == addr_text(*a),
{
    let mut v: Vec<char> = Vec::new();
    v.push('r');
    let ghost v0 = v@;
    let mut row = i32_text(a.row);
    let ghost rowv = row@;
    v.append(&mut row);
    v.push('c');
    let ghost v1 = v@;
    let mut col = i32_text(a.col);
    let ghost colv = col@;
    v.append(&mut col);
    proof {
        reveal_strlit("r");
        reveal_strlit("c");
        assert(v0 =~= "r"@);
        assert(v@ =~= "r"@ + rowv + "c"@ + colv);
    }
    v
}

fn address_vec_contains(v: &Vec<SheetAddress>, a: &SheetAddress) -> (r: bool)
    ensures
        r == v@.contains(*a),
{
    let mut k: usize = 0;
    while k < v.len()
        invariant
            k <= v@.len(),
            forall|m: int| 0 <= m < k ==> v@[m] != *a,
        decreases v@.len() - k,
    {
        if v[k].eq(a) {
            return true;
        }
        k = k + 1;
    }
    false
}

fn copy_cell_value(v: &SheetCellComputedValue) -> (r: SheetCellComputedValue)
    ensures
        cell_view(r) == cell_view(*v),
{
    match v {
        SheetCellComputedValue::Number(n) => SheetCellComputedValue::Number(*n),
        SheetCellComputedValue::Text(s) => SheetCellComputedValue::Text(s.clone()),
        SheetCellComputedValue::Invalid { message } => SheetCellComputedValue::Invalid {
            message: message.clone(),
        },
    }
}

} // verus!

//! Predicates: which rows a request is about.
//!
//! A predicate is a list of terms of four kinds: an exact table name, an
//! equality on the reserved measurement column, a filter on a tag or field
//! column, and a half-open range of timestamps. A row matches when every
//! term holds of it. The planner resolves the first two kinds itself and
//! hands the other two on to the scans.
use vstd::prelude::*;
use crate::name_order::{compare_names, NameOrder};

verus! {

/// The name of the reserved column that stands for a row's measurement.
pub open spec fn measurement_column() -> Seq<char> {
    "_measurement"@
}

/// A half-open range of timestamps: from `start`, up to but not including
/// `end`.
#[derive(Clone, Copy, Debug, PartialEq, Eq, Structural)]
pub struct TimestampRange {
    pub start: i64,
    pub end: i64,
}

impl TimestampRange {
    /// The range from `start` up to, but not including, `end`.
    pub fn new(start: i64, end: i64) -> (range: Self)
        ensures
            range.start == start,
            range.end == end,
    {
        TimestampRange { start, end }
    }

    /// `t` lies in the range.
    pub open spec fn includes(&self, t: int) -> bool {
        self.start <= t < self.end
    }

    /// Whether `t` lies in the range.
    pub fn contains(&self, t: i64) -> (inside: bool)
        ensures
            inside == self.includes(t as int),
    {
        self.start <= t && t < self.end
    }
}

/// A filter on one column: the column holds the given text.
#[derive(Clone, Debug, PartialEq, Eq)]
pub struct Expr {
    pub column: String,
    pub value: String,
}

/// The mathematical value of an [`Expr`].
pub struct ExprView {
    pub column: Seq<char>,
    pub value: Seq<char>,
}

impl View for Expr {
    type V = ExprView;

    open spec fn view(&self) -> ExprView {
        ExprView { column: self.column@, value: self.value@ }
    }
}

impl Expr {
    /// The filter that the column named `column` holds the text `value`.
    pub fn equals(column: &str, value: &str) -> (expr: Expr)
        ensures
            expr@ == (ExprView { column: column@, value: value@ }),
    {
        Expr { column: column.to_owned(), value: value.to_owned() }
    }

    /// A copy of the filter.
    pub fn duplicate(&self) -> (copy: Expr)
        ensures
            copy@ == self@,
    {
        Expr { column: self.column.clone(), value: self.value.clone() }
    }
}

/// One term of a predicate.
#[derive(Clone, Debug, PartialEq, Eq)]
pub enum Term {
    /// The row belongs to the table of this name.
    TableEquals(String),
    /// The row's measurement, which is its table, has this name.
    MeasurementEquals(String),
    /// The row passes this filter on a tag or field column.
    TagExpr(Expr),
    /// The row's timestamp lies in this range.
    TimeRange(TimestampRange),
}

/// The mathematical value of a [`Term`].
pub enum TermView {
    TableEquals(Seq<char>),
    MeasurementEquals(Seq<char>),
    TagExpr(ExprView),
    TimeRange(TimestampRange),
}

impl View for Term {
    type V = TermView;

    open spec fn view(&self) -> TermView {
        match self {
            Term::TableEquals(name) => TermView::TableEquals(name@),
            Term::MeasurementEquals(name) => TermView::MeasurementEquals(name@),
            Term::TagExpr(expr) => TermView::TagExpr(expr@),
            Term::TimeRange(range) => TermView::TimeRange(*range),
        }
    }
}

/// What a row says of itself, as far as a predicate asks: its timestamp, and
/// the text it holds in each column in which it holds text.
pub struct RowFacts {
    pub time: int,
    pub texts: Map<Seq<char>, Seq<char>>,
}

/// The row passes the filter: it holds the filter's text in the filter's
/// column.
pub open spec fn passes(filter: ExprView, row: RowFacts) -> bool {
    row.texts.dom().contains(filter.column) && row.texts[filter.column] == filter.value
}

/// The term holds of a row of the table named `table`.
pub open spec fn term_holds(term: TermView, table: Seq<char>, row: RowFacts) -> bool {
    match term {
        TermView::TableEquals(name) => table == name,
        TermView::MeasurementEquals(name) => table == name,
        TermView::TagExpr(filter) => passes(filter, row),
        TermView::TimeRange(range) => range.includes(row.time),
    }
}

/// A row of the table named `table` matches the predicate: every term
/// holds of it.
pub open spec fn row_matches(predicate: Seq<TermView>, table: Seq<char>, row: RowFacts) -> bool {
    forall|i: int| 0 <= i < predicate.len() ==> term_holds(#[trigger] predicate[i], table, row)
}

/// The term that a filter stands for: an equality on the reserved
/// measurement column is a measurement term, any other a filter term.
pub open spec fn classify(expr: ExprView) -> TermView {
    if expr.column == measurement_column() {
        TermView::MeasurementEquals(expr.value)
    } else {
        TermView::TagExpr(expr)
    }
}

/// Two terms are of one kind of which a predicate may hold only one.
pub open spec fn same_single_kind(a: TermView, b: TermView) -> bool {
    ||| a is TableEquals && b is TableEquals
    ||| a is MeasurementEquals && b is MeasurementEquals
    ||| a is TimeRange && b is TimeRange
}

/// A filter term on the reserved measurement column: such an equality has
/// to stand as a measurement term.
pub open spec fn misplaced(term: TermView) -> bool {
    term matches TermView::TagExpr(expr) && expr.column == measurement_column()
}

/// The shape of a predicate is sound: at most one table name, at most one
/// measurement equality, at most one time range, and no filter on the
/// reserved measurement column.
pub open spec fn well_formed(terms: Seq<TermView>) -> bool {
    &&& forall|i: int, j: int|
        0 <= i < j < terms.len() ==> !same_single_kind(#[trigger] terms[i], #[trigger] terms[j])
    &&& forall|i: int| 0 <= i < terms.len() ==> !misplaced(#[trigger] terms[i])
}

/// The table name of the first table term at or after place `i`.
pub open spec fn table_name_from(terms: Seq<TermView>, i: int) -> Option<Seq<char>>
    decreases terms.len() - i,
{
    if i < 0 || i >= terms.len() {
        None
    } else if terms[i] is TableEquals {
        Some(terms[i]->TableEquals_0)
    } else {
        table_name_from(terms, i + 1)
    }
}

/// The exact table name that the predicate asks for, if any.
pub open spec fn table_name_of(terms: Seq<TermView>) -> Option<Seq<char>> {
    table_name_from(terms, 0)
}

/// The name of the first measurement term at or after place `i`.
pub open spec fn measurement_from(terms: Seq<TermView>, i: int) -> Option<Seq<char>>
    decreases terms.len() - i,
{
    if i < 0 || i >= terms.len() {
        None
    } else if terms[i] is MeasurementEquals {
        Some(terms[i]->MeasurementEquals_0)
    } else {
        measurement_from(terms, i + 1)
    }
}

/// The measurement that the predicate asks for, if any.
pub open spec fn measurement_of(terms: Seq<TermView>) -> Option<Seq<char>> {
    measurement_from(terms, 0)
}

/// The range of the first range term at or after place `i`.
pub open spec fn time_range_from(terms: Seq<TermView>, i: int) -> Option<TimestampRange>
    decreases terms.len() - i,
{
    if i < 0 || i >= terms.len() {
        None
    } else if terms[i] is TimeRange {
        Some(terms[i]->TimeRange_0)
    } else {
        time_range_from(terms, i + 1)
    }
}

/// The range of timestamps that the predicate asks for, if any.
pub open spec fn time_range_of(terms: Seq<TermView>) -> Option<TimestampRange> {
    time_range_from(terms, 0)
}

/// The filters among the first `n` terms, in their order.
pub open spec fn row_filters_before(terms: Seq<TermView>, n: int) -> Seq<ExprView>
    decreases n,
{
    if n <= 0 || n > terms.len() {
        Seq::empty()
    } else if terms[n - 1] is TagExpr {
        row_filters_before(terms, n - 1).push(terms[n - 1]->TagExpr_0)
    } else {
        row_filters_before(terms, n - 1)
    }
}

/// The filters that the predicate asks each row to pass, in their order.
pub open spec fn row_filters_of(terms: Seq<TermView>) -> Seq<ExprView> {
    row_filters_before(terms, terms.len() as int)
}

/// The views of some filters.
pub open spec fn exprs_view(exprs: Seq<Expr>) -> Seq<ExprView> {
    Seq::new(exprs.len(), |i: int| exprs[i]@)
}

/// A predicate: the list of its terms.
#[derive(Clone, Debug, PartialEq, Eq)]
pub struct Predicate {
    pub terms: Vec<Term>,
}

impl View for Predicate {
    type V = Seq<TermView>;

    open spec fn view(&self) -> Seq<TermView> {
        Seq::new(self.terms@.len(), |i: int| self.terms@[i]@)
    }
}

impl Predicate {
    /// Whether the shape of the predicate is sound.
    pub fn is_well_formed(&self) -> (sound: bool)
        ensures
            sound == well_formed(self@),
    {
        let ghost terms = self@;
        let mut table: bool = false;
        let mut measurement: bool = false;
        let mut range: bool = false;
        let mut i: usize = 0;
        while i < self.terms.len()
            invariant
                terms == self@,
                i <= self.terms@.len(),
                table <==> exists|k: int| 0 <= k < i && #[trigger] terms[k] is TableEquals,
                measurement <==> exists|k: int|
                    0 <= k < i && #[trigger] terms[k] is MeasurementEquals,
                range <==> exists|k: int| 0 <= k < i && #[trigger] terms[k] is TimeRange,
                forall|a: int, b: int|
                    0 <= a < b < i ==> !same_single_kind(#[trigger] terms[a], #[trigger] terms[b]),
                forall|k: int| 0 <= k < i ==> !misplaced(#[trigger] terms[k]),
            decreases self.terms@.len() - i,
        {
            assert(terms[i as int] == self.terms@[i as int]@);
            let again = match &self.terms[i] {
                Term::TableEquals(_) => table,
                Term::MeasurementEquals(_) => measurement,
                Term::TimeRange(_) => range,
                Term::TagExpr(expr) => {
                    match compare_names(expr.column.as_str(), "_measurement") {
                        NameOrder::Same => {
                            assert(misplaced(terms[i as int]));
                            return false;
                        },
                        _ => false,
                    }
                },
            };
            if again {
                proof {
                    let k = if terms[i as int] is TableEquals {
                        choose|k: int| 0 <= k < i && #[trigger] terms[k] is TableEquals
                    } else if terms[i as int] is MeasurementEquals {
                        choose|k: int| 0 <= k < i && #[trigger] terms[k] is MeasurementEquals
                    } else {
                        choose|k: int| 0 <= k < i && #[trigger] terms[k] is TimeRange
                    };
                    assert(same_single_kind(terms[k], terms[i as int]));
                }
                return false;
            }
            match &self.terms[i] {
                Term::TableEquals(_) => {
                    table = true;
                },
                Term::MeasurementEquals(_) => {
                    measurement = true;
                },
                Term::TimeRange(_) => {
                    range = true;
                },
                Term::TagExpr(_) => {},
            }
            i += 1;
        }
        true
    }

    /// The exact table name that the predicate asks for, if any: that of
    /// its first table term.
    pub fn table_name(&self) -> (name: Option<&str>)
        ensures
            name is Some <==> table_name_of(self@) is Some,
            name matches Some(n) ==> table_name_of(self@) == Some(n@),
    {
        let mut i: usize = 0;
        while i < self.terms.len()
            invariant
                i <= self.terms@.len(),
                table_name_of(self@) == table_name_from(self@, i as int),
            decreases self.terms@.len() - i,
        {
            assert(self@[i as int] == self.terms@[i as int]@);
            match &self.terms[i] {
                Term::TableEquals(name) => {
                    return Some(name.as_str());
                },
                _ => {},
            }
            i += 1;
        }
        None
    }

    /// The measurement that the predicate asks for, if any: that of its
    /// first measurement term.
    pub fn measurement_equality(&self) -> (name: Option<&str>)
        ensures
            name is Some <==> measurement_of(self@) is Some,
            name matches Some(n) ==> measurement_of(self@) == Some(n@),
    {
        let mut i: usize = 0;
        while i < self.terms.len()
            invariant
                i <= self.terms@.len(),
                measurement_of(self@) == measurement_from(self@, i as int),
            decreases self.terms@.len() - i,
        {
            assert(self@[i as int] == self.terms@[i as int]@);
            match &self.terms[i] {
                Term::MeasurementEquals(name) => {
                    return Some(name.as_str());
                },
                _ => {},
            }
            i += 1;
        }
        None
    }

    /// The range of timestamps that the predicate asks for, if any: that of
    /// its first range term.
    pub fn timestamp_range(&self) -> (range: Option<TimestampRange>)
        ensures
            range == time_range_of(self@),
    {
        let mut i: usize = 0;
        while i < self.terms.len()
            invariant
                i <= self.terms@.len(),
                time_range_of(self@) == time_range_from(self@, i as int),
            decreases self.terms@.len() - i,
        {
            assert(self@[i as int] == self.terms@[i as int]@);
            match &self.terms[i] {
                Term::TimeRange(range) => {
                    return Some(*range);
                },
                _ => {},
            }
            i += 1;
        }
        None
    }

    /// The filters that each row has to pass, in the order of the terms and
    /// as they were given.
    pub fn row_filter_terms(&self) -> (filters: Vec<Expr>)
        ensures
            exprs_view(filters@) == row_filters_of(self@),
    {
        let mut filters: Vec<Expr> = Vec::new();
        let mut i: usize = 0;
        while i < self.terms.len()
            invariant
                i <= self.terms@.len(),
                exprs_view(filters@) == row_filters_before(self@, i as int),
            decreases self.terms@.len() - i,
        {
            assert(self@[i as int] == self.terms@[i as int]@);
            let ghost before = exprs_view(filters@);
            match &self.terms[i] {
                Term::TagExpr(expr) => {
                    filters.push(expr.duplicate());
                    assert(exprs_view(filters@) =~= before.push(expr@));
                },
                _ => {},
            }
            i += 1;
        }
        filters
    }
}

/// Builds a predicate term by term.
#[derive(Clone, Debug)]
pub struct PredicateBuilder {
    inner: Predicate,
}

impl View for PredicateBuilder {
    type V = Seq<TermView>;

    closed spec fn view(&self) -> Seq<TermView> {
        self.inner@
    }
}

impl Default for PredicateBuilder {
    /// A builder that holds no term yet.
    fn default() -> (builder: PredicateBuilder)
        ensures
            builder@ == Seq::<TermView>::empty(),
    {
        let builder = PredicateBuilder { inner: Predicate { terms: Vec::new() } };
        assert(builder@ =~= Seq::<TermView>::empty());
        builder
    }
}

impl PredicateBuilder {
    fn with(self, term: Term) -> (builder: Self)
        ensures
            builder@ == self@.push(term@),
    {
        let mut terms = self.inner.terms;
        terms.push(term);
        let builder = PredicateBuilder { inner: Predicate { terms } };
        assert(builder@ =~= self@.push(term@));
        builder
    }

    /// Asks for the rows of the table named `table`.
    pub fn table(self, table: &str) -> (builder: Self)
        ensures
            builder@ == self@.push(TermView::TableEquals(table@)),
    {
        self.with(Term::TableEquals(table.to_owned()))
    }

    /// Asks for the rows whose timestamp lies in `start..end`.
    pub fn timestamp_range(self, start: i64, end: i64) -> (builder: Self)
        ensures
            builder@ == self@.push(TermView::TimeRange(TimestampRange { start, end })),
    {
        self.with(Term::TimeRange(TimestampRange::new(start, end)))
    }

    /// Asks for the rows that pass `expr`. An equality on the reserved
    /// measurement column becomes a measurement term; any other stays a
    /// filter.
    pub fn add_expr(self, expr: Expr) -> (builder: Self)
        ensures
            builder@ == self@.push(classify(expr@)),
    {
        match compare_names(expr.column.as_str(), "_measurement") {
            NameOrder::Same => self.with(Term::MeasurementEquals(expr.value)),
            _ => self.with(Term::TagExpr(expr)),
        }
    }

    /// The predicate built.
    pub fn build(self) -> (predicate: Predicate)
        ensures
            predicate@ == self@,
    {
        self.inner
    }
}

} // verus!

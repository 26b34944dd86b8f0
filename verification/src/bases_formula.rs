//! Formula display results for Bases views, and their summary counts.
use vstd::prelude::*;
use crate::text::str_eq;

verus! {

/// A formula error together with the formula that produced it.
#[derive(Clone, Debug, PartialEq, Eq)]
pub struct FormulaError {
    pub formula: String,
    /// The evaluator's complete error text.
    pub message: String,
}

impl FormulaError {
    /// The error text, as the error displays.
    pub fn to_string(&self) -> (r: String)
        ensures
            r@ == self.message@,
    {
        self.message.clone()
    }
}

/// The result of evaluating a formula for display.
#[derive(Clone, Debug, PartialEq, Eq)]
pub enum FormulaDisplay {
    /// A value, already formatted.
    Value(String),
    /// An evaluation failure.
    Error(FormulaError),
}

/// Counts for a Bases formula summary.
#[derive(Clone, Copy, Debug, Default, Eq, PartialEq)]
pub struct FormulaSummary {
    pub total: usize,
    pub values: usize,
    pub errors: usize,
    pub nulls: usize,
}

/// The text shown for a null value.
pub open spec fn null_text() -> Seq<char> {
    seq!['—']
}

/// How many displays are values, errors and nulls (values showing the null text).
pub open spec fn tally_displays(ds: Seq<FormulaDisplay>) -> (int, int, int)
    decreases ds.len(),
{
    if ds.len() == 0 {
        (0, 0, 0)
    } else {
        let (v, e, n) = tally_displays(ds.drop_last());
        match ds.last() {
            FormulaDisplay::Value(s) => (v + 1, e, if s@ == null_text() { n + 1 } else { n }),
            FormulaDisplay::Error(_) => (v, e + 1, n),
        }
    }
}

proof fn lemma_tally_bounds(ds: Seq<FormulaDisplay>)
    ensures
        0 <= tally_displays(ds).0 && 0 <= tally_displays(ds).1 && 0 <= tally_displays(ds).2,
        tally_displays(ds).0 + tally_displays(ds).1 == ds.len(),
        tally_displays(ds).2 <= tally_displays(ds).0,
    decreases ds.len(),
{
    if ds.len() > 0 {
        lemma_tally_bounds(ds.drop_last());
    }
}

/// The summary of the displays of a record's formula properties, in property
/// order: how many there are, and how many are values, errors and nulls.
pub fn summarize_displays(displays: &Vec<FormulaDisplay>) -> (r: FormulaSummary)
    ensures
        r.total == displays@.len(),
        r.values == tally_displays(displays@).0,
        r.errors == tally_displays(displays@).1,
        r.nulls == tally_displays(displays@).2,
{
    let null = "—";
    proof {
        reveal_strlit("—");
        assert(null@ =~= null_text());
    }
    let mut s = FormulaSummary { total: displays.len(), values: 0, errors: 0, nulls: 0 };
    let mut k: usize = 0;
    proof {
        assert(displays@.take(0) =~= Seq::<FormulaDisplay>::empty());
    }
    while k < displays.len()
        invariant
            k <= displays@.len(),
            s.total == displays@.len(),
            null@ == null_text(),
            s.values == tally_displays(displays@.take(k as int)).0,
            s.errors == tally_displays(displays@.take(k as int)).1,
            s.nulls == tally_displays(displays@.take(k as int)).2,
        decreases displays@.len() - k,
    {
        proof {
            lemma_tally_bounds(displays@.take(k as int));
            assert(displays@.take(k + 1).drop_last() =~= displays@.take(k as int));
            assert(displays@.take(k + 1).last() == displays@[k as int]);
        }
        match &displays[k] {
            FormulaDisplay::Value(v) => {
                s.values = s.values + 1;
                if str_eq(v, null) {
                    s.nulls = s.nulls + 1;
                }
            },
            FormulaDisplay::Error(_) => {
                s.errors = s.errors + 1;
            },
        }
        k = k + 1;
    }
    proof {
        assert(displays@.take(k as int) =~= displays@);
    }
    s
}

} // verus!

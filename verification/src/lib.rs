//! Renders an error value together with its full chain of causes as a single
//! human-readable string: the top-level description first, then a literal
//! `Caused by:` marker (only when at least one cause exists), then one
//! tab-indented line per cause, from the most immediate cause to the root
//! cause.

use vstd::prelude::*;

verus! {

use vstd::string::StringExecFns;

/// The marker that separates the top-level description from the cause lines.
pub open spec fn caused_by_marker() -> Seq<char> {
    "\nCaused by:"@
}

/// The separator that precedes each cause line: a newline and a tab.
pub open spec fn cause_separator() -> Seq<char> {
    "\n\t"@
}

/// One line per cause, in order: each description preceded by the separator.
pub open spec fn cause_lines(causes: Seq<Seq<char>>) -> Seq<char>
    decreases causes.len(),
{
    if causes.len() == 0 {
        Seq::empty()
    } else {
        cause_separator() + causes.first() + cause_lines(causes.drop_first())
    }
}

/// The rendered report for a chain of descriptions (the value's own first):
/// the description alone when there is no cause, otherwise the description,
/// the marker, and one line per cause.
pub open spec fn format_chain(chain: Seq<Seq<char>>) -> Seq<char>
    recommends
        chain.len() >= 1,
{
    if chain.len() <= 1 {
        chain.first()
    } else {
        chain.first() + caused_by_marker() + cause_lines(chain.drop_first())
    }
}

/// The capability an error value offers: a textual description of this level
/// and an optional underlying cause. `chain` is the value's model: the
/// descriptions of the value itself and of every transitive cause, the
/// value's own first, the root cause last.
pub trait ErrorValue: Sized {
    /// The descriptions along the chain of causes, this value's own first.
    spec fn chain(&self) -> Seq<Seq<char>>;

    /// A chain holds at least the value's own description.
    proof fn chain_nonempty(&self)
        ensures
            self.chain().len() >= 1,
    ;

    /// This value's own description.
    fn description(&self) -> (d: String)
        ensures
            d@ == self.chain().first(),
    ;

    /// The underlying cause, if any: its chain is this value's chain without
    /// the first description.
    fn cause(&self) -> (c: Option<&Self>)
        ensures
            match c {
                Some(inner) => self.chain().len() > 1 && inner.chain()
                    == self.chain().drop_first(),
                None => self.chain().len() == 1,
            },
    ;
}

/// Appending one more cause to the lines appends one separator and that
/// cause's description at the end.
proof fn lemma_cause_lines_push(causes: Seq<Seq<char>>, d: Seq<char>)
    ensures
        cause_lines(causes.push(d)) == cause_lines(causes) + cause_separator() + d,
    decreases causes.len(),
{
    if causes.len() == 0 {
        let p = causes.push(d);
        assert(p.first() == d);
        assert(p.drop_first() =~= Seq::<Seq<char>>::empty());
        assert(cause_lines(p.drop_first()) =~= Seq::<char>::empty());
        assert(cause_lines(p) =~= cause_lines(causes) + cause_separator() + d);
    } else {
        lemma_cause_lines_push(causes.drop_first(), d);
        assert(causes.push(d).drop_first() =~= causes.drop_first().push(d));
        assert(cause_lines(causes.push(d)) =~= cause_lines(causes) + cause_separator() + d);
    }
}

/// Formats an error with its chain of causes: the error's own description,
/// and, when it has a cause, the `Caused by:` marker followed by one
/// tab-indented line per cause, the most immediate cause first.
///
/// The result is exactly `format_chain` of the error's chain of
/// descriptions, so it depends on nothing but that chain.
#[verifier::loop_isolation(false)]
pub fn to_string<E: ErrorValue>(e: &E) -> (s: String)
    ensures
        s@ == format_chain(e.chain()),
{
    let ghost full = e.chain();
    proof {
        e.chain_nonempty();
    }
    let mut s = e.description();
    let mut current = e.cause();
    let ghost mut i: int = 1;
    if current.is_some() {
        s.append("\nCaused by:");
        proof {
            assert(full.subrange(1, 1) =~= Seq::<Seq<char>>::empty());
            assert(s@ =~= full.first() + caused_by_marker() + cause_lines(full.subrange(1, 1)));
        }
    }
    while current.is_some()
        invariant
            1 <= i <= full.len(),
            match current {
                Some(c) => i < full.len() && c.chain() == full.skip(i),
                None => i == full.len(),
            },
            full.len() == 1 ==> s@ == full.first(),
            full.len() > 1 ==> s@ == full.first() + caused_by_marker() + cause_lines(
                full.subrange(1, i),
            ),
        decreases full.len() - i,
    {
        let c = current.unwrap();
        s.append("\n\t");
        let d = c.description();
        s.append(d.as_str());
        proof {
            assert(c.chain().first() == full[i]);
            lemma_cause_lines_push(full.subrange(1, i), full[i]);
            assert(full.subrange(1, i + 1) =~= full.subrange(1, i).push(full[i]));
            assert(s@ =~= full.first() + caused_by_marker() + cause_lines(
                full.subrange(1, i + 1),
            ));
        }
        current = c.cause();
        proof {
            if current is Some {
                assert(full.skip(i).drop_first() =~= full.skip(i + 1));
            }
            i = i + 1;
        }
    }
    proof {
        if full.len() > 1 {
            assert(full.subrange(1, full.len() as int) =~= full.drop_first());
        }
    }
    s
}

/// An error without a cause formats to exactly its own description: no
/// marker, no extra characters.
pub proof fn lemma_format_no_cause<E: ErrorValue>(e: &E)
    requires
        e.chain().len() == 1,
    ensures
        format_chain(e.chain()) == e.chain().first(),
{
}

/// The report depends on nothing but the sequence of descriptions: any two
/// error values with equal chains — a concrete value and a type-erased
/// handle to it, or two values built alike — format identically.
pub proof fn lemma_format_deterministic<A: ErrorValue, B: ErrorValue>(a: &A, b: &B)
    requires
        a.chain() == b.chain(),
    ensures
        format_chain(a.chain()) == format_chain(b.chain()),
{
}

/// Where the `k`-th description of a chain starts within the rendered
/// report: the top-level description at the start, each cause right after
/// its separator.
pub open spec fn description_start(chain: Seq<Seq<char>>, k: int) -> int
    recommends
        0 <= k < chain.len(),
    decreases k,
{
    if k <= 0 {
        0
    } else if k == 1 {
        chain.first().len() + caused_by_marker().len() + cause_separator().len() as int
    } else {
        description_start(chain, k - 1) + chain[k - 1].len() + cause_separator().len()
    }
}

/// Where the `j`-th cause description starts within its block of cause
/// lines, right after its separator.
spec fn cause_start(causes: Seq<Seq<char>>, j: int) -> int
    decreases j,
{
    if j <= 0 {
        cause_separator().len() as int
    } else {
        cause_start(causes, j - 1) + causes[j - 1].len() + cause_separator().len()
    }
}

proof fn lemma_cause_start_shift(causes: Seq<Seq<char>>, j: int)
    requires
        1 <= j < causes.len(),
    ensures
        cause_start(causes, j) == cause_separator().len() + causes.first().len() + cause_start(
            causes.drop_first(),
            j - 1,
        ),
    decreases j,
{
    if j == 1 {
        assert(cause_start(causes, 0) == cause_separator().len() as int);
        assert(cause_start(causes.drop_first(), 0) == cause_separator().len() as int);
    } else {
        lemma_cause_start_shift(causes, j - 1);
        assert(causes.drop_first()[j - 2] == causes[j - 1]);
    }
}

proof fn lemma_cause_start_nonneg(causes: Seq<Seq<char>>, j: int)
    requires
        0 <= j,
    ensures
        cause_start(causes, j) >= cause_separator().len(),
    decreases j,
{
    if j > 0 {
        lemma_cause_start_nonneg(causes, j - 1);
    }
}

proof fn lemma_cause_lines_verbatim(causes: Seq<Seq<char>>, j: int)
    requires
        0 <= j < causes.len(),
    ensures
        cause_start(causes, j) + causes[j].len() <= cause_lines(causes).len(),
        cause_lines(causes).subrange(
            cause_start(causes, j),
            cause_start(causes, j) + causes[j].len(),
        ) == causes[j],
    decreases j,
{
    let tail = causes.drop_first();
    let pre = cause_separator() + causes.first();
    assert(cause_lines(causes) =~= pre + cause_lines(tail));
    if j == 0 {
        assert(cause_lines(causes).subrange(
            cause_start(causes, 0),
            cause_start(causes, 0) + causes[0].len(),
        ) =~= causes[0]);
    } else {
        lemma_cause_lines_verbatim(tail, j - 1);
        lemma_cause_start_shift(causes, j);
        lemma_cause_start_nonneg(tail, j - 1);
        assert(tail[j - 1] == causes[j]);
        assert(cause_lines(causes).subrange(
            cause_start(causes, j),
            cause_start(causes, j) + causes[j].len(),
        ) =~= cause_lines(tail).subrange(
            cause_start(tail, j - 1),
            cause_start(tail, j - 1) + tail[j - 1].len(),
        ));
    }
}

proof fn lemma_description_start_eq(chain: Seq<Seq<char>>, k: int)
    requires
        1 <= k < chain.len(),
    ensures
        description_start(chain, k) == chain.first().len() + caused_by_marker().len()
            + cause_start(chain.drop_first(), k - 1),
    decreases k,
{
    if k > 1 {
        lemma_description_start_eq(chain, k - 1);
        assert(chain.drop_first()[k - 2] == chain[k - 1]);
    }
}

/// Every description appears verbatim in the rendered report at its
/// expected position: nothing is mutated, truncated or re-escaped. The
/// top-level description opens the report; the `k`-th cause follows its
/// separator.
pub proof fn lemma_description_verbatim(chain: Seq<Seq<char>>, k: int)
    requires
        chain.len() >= 1,
        0 <= k < chain.len(),
    ensures
        description_start(chain, k) + chain[k].len() <= format_chain(chain).len(),
        format_chain(chain).subrange(
            description_start(chain, k),
            description_start(chain, k) + chain[k].len(),
        ) == chain[k],
{
    if k == 0 {
        assert(format_chain(chain).subrange(0, chain[0].len() as int) =~= chain[0]);
    } else {
        let causes = chain.drop_first();
        let pre = chain.first() + caused_by_marker();
        assert(format_chain(chain) =~= pre + cause_lines(causes));
        lemma_cause_lines_verbatim(causes, k - 1);
        lemma_description_start_eq(chain, k);
        lemma_cause_start_nonneg(causes, k - 1);
        assert(causes[k - 1] == chain[k]);
        assert(format_chain(chain).subrange(
            description_start(chain, k),
            description_start(chain, k) + chain[k].len(),
        ) =~= cause_lines(causes).subrange(
            cause_start(causes, k - 1),
            cause_start(causes, k - 1) + causes[k - 1].len(),
        ));
    }
}

/// The summed length of a sequence of descriptions.
pub open spec fn descriptions_len(ds: Seq<Seq<char>>) -> int
    decreases ds.len(),
{
    if ds.len() == 0 {
        0
    } else {
        ds.first().len() + descriptions_len(ds.drop_first())
    }
}

proof fn lemma_cause_lines_len(causes: Seq<Seq<char>>)
    ensures
        cause_lines(causes).len() == descriptions_len(causes) + causes.len()
            * cause_separator().len(),
    decreases causes.len(),
{
    if causes.len() > 0 {
        lemma_cause_lines_len(causes.drop_first());
        assert((causes.len() - 1) * cause_separator().len() + cause_separator().len()
            == causes.len() * cause_separator().len()) by (nonlinear_arith);
    }
}

/// The shape of the report is fixed by the chain alone: its length is the
/// summed length of the descriptions, plus — only when at least one cause
/// exists — the marker once and one separator per cause. In particular,
/// empty descriptions leave every marker and separator in place.
pub proof fn lemma_format_chain_len(chain: Seq<Seq<char>>)
    requires
        chain.len() >= 1,
    ensures
        chain.len() == 1 ==> format_chain(chain).len() == chain.first().len(),
        chain.len() > 1 ==> format_chain(chain).len() == descriptions_len(chain)
            + caused_by_marker().len() + (chain.len() - 1) * cause_separator().len(),
{
    if chain.len() > 1 {
        lemma_cause_lines_len(chain.drop_first());
    }
}

/// A concrete error value: a description of this level and an optional
/// boxed underlying cause.
pub struct ChainError {
    /// What went wrong at this level.
    pub description: String,
    /// The underlying error this one wraps, if any.
    pub cause: Option<Box<ChainError>>,
}

/// The descriptions along a `ChainError`'s chain of causes, the value's own
/// first.
pub open spec fn chain_of(e: ChainError) -> Seq<Seq<char>>
    decreases e,
{
    match e.cause {
        Some(c) => seq![e.description@] + chain_of(*c),
        None => seq![e.description@],
    }
}

/// A `ChainError`'s chain always holds its own description.
pub proof fn lemma_chain_of_nonempty(e: ChainError)
    ensures
        chain_of(e).len() >= 1,
{
}

impl ErrorValue for ChainError {
    open spec fn chain(&self) -> Seq<Seq<char>> {
        chain_of(*self)
    }

    proof fn chain_nonempty(&self) {
        lemma_chain_of_nonempty(*self);
    }

    fn description(&self) -> (d: String) {
        self.description.clone()
    }

    fn cause(&self) -> (c: Option<&ChainError>) {
        match &self.cause {
            Some(b) => {
                proof {
                    lemma_chain_of_nonempty(**b);
                    assert((seq![self.description@] + chain_of(**b)).drop_first() =~= chain_of(
                        **b,
                    ));
                }
                Some(&**b)
            },
            None => None,
        }
    }
}

} // verus!

//! Reference-sequence context of a container or slice: which reference its
//! records align to, and the span they cover.

use vstd::prelude::*;

use crate::position::Position;
use crate::position::pos_max;
use crate::position::pos_min;

verus! {

/// A single reference span: reference id and inclusive alignment bounds.
#[derive(Clone, Copy, Debug, PartialEq, Eq, Structural)]
pub struct Context {
    /// The reference this span lies on.
    pub reference_sequence_id: usize,
    /// Inclusive start of the span.
    pub alignment_start: Position,
    /// Inclusive end of the span.
    pub alignment_end: Position,
}

impl Context {
    /// The reference sequence id, for specifications.
    pub open spec fn spec_id(self) -> int {
        self.reference_sequence_id as int
    }

    /// The alignment start, for specifications.
    pub open spec fn spec_start(self) -> Position {
        self.alignment_start
    }

    /// The alignment end, for specifications.
    pub open spec fn spec_end(self) -> Position {
        self.alignment_end
    }

    fn new(reference_sequence_id: usize, alignment_start: Position, alignment_end: Position) -> (r:
        Context)
        ensures
            r.spec_id() == reference_sequence_id,
            r.spec_start() == alignment_start,
            r.spec_end() == alignment_end,
    {
        Context { reference_sequence_id, alignment_start, alignment_end }
    }

    /// Returns the reference sequence id.
    pub fn reference_sequence_id(&self) -> (r: usize)
        ensures
            r == self.spec_id(),
    {
        self.reference_sequence_id
    }

    /// Returns the alignment start.
    pub fn alignment_start(&self) -> (r: Position)
        ensures
            r == self.spec_start(),
    {
        self.alignment_start
    }

    /// Returns the number of positions covered, `end - start + 1`.
    pub fn alignment_span(&self) -> (r: usize)
        requires
            self.spec_start().spec_get() <= self.spec_end().spec_get(),
        ensures
            r == self.spec_end().spec_get() - self.spec_start().spec_get() + 1,
    {
        self.alignment_end.get() - self.alignment_start.get() + 1
    }

    /// Returns the alignment end.
    pub fn alignment_end(&self) -> (r: Position)
        ensures
            r == self.spec_end(),
    {
        self.alignment_end
    }
}

/// Where the records of a container or slice align: one reference span,
/// nowhere (all unmapped), or several references.
#[derive(Clone, Copy, Debug, PartialEq, Eq, Structural)]
pub enum ReferenceSequenceContext {
    /// All records align to one reference, within one span.
    Single(Context),
    /// No record is mapped.
    Missing,
    /// Records align to more than one reference, or mix mapped and unmapped.
    Many,
}

/// What one update does to a reference-sequence context: a matching mapped
/// record widens a `Single` span; any divergence collapses to `Many`; an
/// unmapped record keeps `Missing` as it is.
pub open spec fn update_spec(
    c: ReferenceSequenceContext,
    reference_sequence_id: Option<usize>,
    alignment_start: Option<Position>,
    alignment_end: Option<Position>,
) -> ReferenceSequenceContext {
    match (c, reference_sequence_id, alignment_start, alignment_end) {
        (
            ReferenceSequenceContext::Single(context),
            Some(record_id),
            Some(record_start),
            Some(record_end),
        ) => {
            if record_id == context.spec_id() {
                ReferenceSequenceContext::Single(
                    Context {
                        reference_sequence_id: record_id,
                        alignment_start: pos_min(record_start, context.spec_start()),
                        alignment_end: pos_max(record_end, context.spec_end()),
                    },
                )
            } else {
                ReferenceSequenceContext::Many
            }
        },
        (ReferenceSequenceContext::Single(_), _, _, _) => ReferenceSequenceContext::Many,
        (ReferenceSequenceContext::Missing, Some(_), _, _) => ReferenceSequenceContext::Many,
        (ReferenceSequenceContext::Missing, None, _, _) => ReferenceSequenceContext::Missing,
        (ReferenceSequenceContext::Many, _, _, _) => ReferenceSequenceContext::Many,
    }
}

impl ReferenceSequenceContext {
    /// Builds a single-reference context over the given inclusive span.
    pub fn some(
        reference_sequence_id: usize,
        alignment_start: Position,
        alignment_end: Position,
    ) -> (r: ReferenceSequenceContext)
        ensures
            r matches ReferenceSequenceContext::Single(ctx) && ctx.spec_id()
                == reference_sequence_id && ctx.spec_start() == alignment_start && ctx.spec_end()
                == alignment_end,
    {
        ReferenceSequenceContext::Single(
            Context::new(reference_sequence_id, alignment_start, alignment_end),
        )
    }

    /// Whether records align to more than one reference.
    pub fn is_many(&self) -> (r: bool)
        ensures
            r == (*self is Many),
    {
        matches!(self, ReferenceSequenceContext::Many)
    }

    /// Folds one record's placement into the context.
    pub fn update(
        &mut self,
        reference_sequence_id: Option<usize>,
        alignment_start: Option<Position>,
        alignment_end: Option<Position>,
    )
        ensures
            *final(self) == update_spec(
                *old(self),
                reference_sequence_id,
                alignment_start,
                alignment_end,
            ),
    {
        *self = match (*self, reference_sequence_id, alignment_start, alignment_end) {
            (
                ReferenceSequenceContext::Single(context),
                Some(record_id),
                Some(record_start),
                Some(record_end),
            ) => {
                if record_id == context.reference_sequence_id() {
                    let start = record_start.min(context.alignment_start());
                    let end = record_end.max(context.alignment_end());
                    ReferenceSequenceContext::some(record_id, start, end)
                } else {
                    ReferenceSequenceContext::Many
                }
            },
            (ReferenceSequenceContext::Single(_), _, _, _) => ReferenceSequenceContext::Many,
            (ReferenceSequenceContext::Missing, Some(_), _, _) => ReferenceSequenceContext::Many,
            (ReferenceSequenceContext::Missing, None, _, _) => ReferenceSequenceContext::Missing,
            (ReferenceSequenceContext::Many, _, _, _) => ReferenceSequenceContext::Many,
        };
    }
}

impl Default for ReferenceSequenceContext {
    /// The context of a container or slice that holds no records yet.
    fn default() -> (r: ReferenceSequenceContext)
        ensures
            r is Missing,
    {
        ReferenceSequenceContext::Missing
    }
}

/// Folds a whole sequence of mapped-record updates into a context, front to
/// back.
pub open spec fn apply_updates(
    c: ReferenceSequenceContext,
    us: Seq<(usize, Position, Position)>,
) -> ReferenceSequenceContext
    decreases us.len(),
{
    if us.len() == 0 {
        c
    } else {
        apply_updates(update_spec(c, Some(us[0].0), Some(us[0].1), Some(us[0].2)), us.drop_first())
    }
}

/// The least of `s0` and the starts in `us`.
pub open spec fn fold_min_start(s0: int, us: Seq<(usize, Position, Position)>) -> int
    decreases us.len(),
{
    if us.len() == 0 {
        s0
    } else {
        fold_min_start(
            if us[0].1.spec_get() < s0 {
                us[0].1.spec_get()
            } else {
                s0
            },
            us.drop_first(),
        )
    }
}

/// The greatest of `e0` and the ends in `us`.
pub open spec fn fold_max_end(e0: int, us: Seq<(usize, Position, Position)>) -> int
    decreases us.len(),
{
    if us.len() == 0 {
        e0
    } else {
        fold_max_end(
            if us[0].2.spec_get() > e0 {
                us[0].2.spec_get()
            } else {
                e0
            },
            us.drop_first(),
        )
    }
}

/// Law: a `Single` context updated by any sequence of records that all carry
/// its own reference id stays `Single`, with the least start and the greatest
/// end seen.
pub proof fn lemma_update_same_reference_stays_single(
    c: Context,
    us: Seq<(usize, Position, Position)>,
)
    requires
        forall|i: int| 0 <= i < us.len() ==> #[trigger] us[i].0 == c.spec_id(),
    ensures
        ({
            let r = apply_updates(ReferenceSequenceContext::Single(c), us);
            &&& r matches ReferenceSequenceContext::Single(ctx2)
            &&& ctx2.spec_id() == c.spec_id()
            &&& ctx2.spec_start().spec_get() == fold_min_start(c.spec_start().spec_get(), us)
            &&& ctx2.spec_end().spec_get() == fold_max_end(c.spec_end().spec_get(), us)
        }),
    decreases us.len(),
{
    if us.len() == 0 {
    } else {
        let c1 = update_spec(
            ReferenceSequenceContext::Single(c),
            Some(us[0].0),
            Some(us[0].1),
            Some(us[0].2),
        );
        assert(c1 matches ReferenceSequenceContext::Single(ctx1) && ctx1.spec_id() == c.spec_id());
        let ctx1 = c1->Single_0;
        lemma_update_same_reference_stays_single(ctx1, us.drop_first());
    }
}

/// The folded minimum really is the minimum: it is no larger than the seed or
/// any update's start, and it equals one of them.
pub proof fn lemma_fold_min_start_is_min(s0: int, us: Seq<(usize, Position, Position)>)
    ensures
        fold_min_start(s0, us) <= s0,
        forall|i: int| 0 <= i < us.len() ==> fold_min_start(s0, us) <= #[trigger] us[i].1.spec_get(),
        fold_min_start(s0, us) == s0 || exists|i: int|
            0 <= i < us.len() && fold_min_start(s0, us) == #[trigger] us[i].1.spec_get(),
    decreases us.len(),
{
    if us.len() == 0 {
    } else {
        let s1 = if us[0].1.spec_get() < s0 {
            us[0].1.spec_get()
        } else {
            s0
        };
        lemma_fold_min_start_is_min(s1, us.drop_first());
        assert forall|i: int| 0 <= i < us.len() implies fold_min_start(s0, us)
            <= #[trigger] us[i].1.spec_get() by {
            if i > 0 {
                assert(us.drop_first()[i - 1] == us[i]);
            }
        }
        if fold_min_start(s1, us.drop_first()) != s1 {
            let j = choose|j: int|
                0 <= j < us.drop_first().len() && fold_min_start(s1, us.drop_first())
                    == #[trigger] us.drop_first()[j].1.spec_get();
            assert(us[j + 1] == us.drop_first()[j]);
        }
    }
}

/// The folded maximum really is the maximum: it is no smaller than the seed or
/// any update's end, and it equals one of them.
pub proof fn lemma_fold_max_end_is_max(e0: int, us: Seq<(usize, Position, Position)>)
    ensures
        fold_max_end(e0, us) >= e0,
        forall|i: int| 0 <= i < us.len() ==> fold_max_end(e0, us) >= #[trigger] us[i].2.spec_get(),
        fold_max_end(e0, us) == e0 || exists|i: int|
            0 <= i < us.len() && fold_max_end(e0, us) == #[trigger] us[i].2.spec_get(),
    decreases us.len(),
{
    if us.len() == 0 {
    } else {
        let e1 = if us[0].2.spec_get() > e0 {
            us[0].2.spec_get()
        } else {
            e0
        };
        lemma_fold_max_end_is_max(e1, us.drop_first());
        assert forall|i: int| 0 <= i < us.len() implies fold_max_end(e0, us)
            >= #[trigger] us[i].2.spec_get() by {
            if i > 0 {
                assert(us.drop_first()[i - 1] == us[i]);
            }
        }
        if fold_max_end(e1, us.drop_first()) != e1 {
            let j = choose|j: int|
                0 <= j < us.drop_first().len() && fold_max_end(e1, us.drop_first())
                    == #[trigger] us.drop_first()[j].2.spec_get();
            assert(us[j + 1] == us.drop_first()[j]);
        }
    }
}

} // verus!

//! The decision core of the streaming extraction engine: which entries
//! are written and which are rejected by the whitelist, where each
//! entry's bytes stand in the source file, and when the one-time
//! finalization step runs.  The surrounding application performs the
//! actual file I/O and drives the completion counter under an atomic
//! fetch-add; every decision it acts on is computed and verified here.

use vstd::prelude::*;

use crate::entries::{EntryModel, GMAEntry};
use crate::error::GMAError;
use crate::whitelist::spec_whitelisted;
use crate::whitelist::check;

verus! {

/// One planned step of an extraction: either stream `size` bytes from
/// absolute offset `offset` of the source into the file named by
/// `path`, or report the path as rejected by the whitelist.
#[derive(Debug, Clone)]
pub enum ExtractAction {
    Write { path: String, offset: u64, size: u64 },
    Reject { path: String },
}

/// Mathematical model of a planned step.
#[verifier::ext_equal]
pub enum ActionModel {
    Write { path: Seq<char>, offset: u64, size: u64 },
    Reject { path: Seq<char> },
}

impl View for ExtractAction {
    type V = ActionModel;

    open spec fn view(&self) -> ActionModel {
        match self {
            ExtractAction::Write { path, offset, size } => ActionModel::Write {
                path: path@,
                offset: *offset,
                size: *size,
            },
            ExtractAction::Reject { path } => ActionModel::Reject { path: path@ },
        }
    }
}

impl DeepView for ExtractAction {
    type V = ActionModel;

    open spec fn deep_view(&self) -> ActionModel {
        self.view()
    }
}

/// The plan for one table: whitelisted entries become writes at
/// `data_start` plus their table offset; the rest become rejections.
pub open spec fn spec_plan(l: Seq<EntryModel>, data_start: u64) -> Seq<ActionModel>
    decreases l.len(),
{
    if l.len() == 0 {
        Seq::empty()
    } else {
        let head = if spec_whitelisted(l[0].path) {
            ActionModel::Write {
                path: l[0].path,
                offset: (data_start + l[0].index) as u64,
                size: l[0].size,
            }
        } else {
            ActionModel::Reject { path: l[0].path }
        };
        seq![head] + spec_plan(l.drop_first(), data_start)
    }
}

/// How many entries of the table the whitelist rejects.
pub open spec fn spec_count_disallowed(l: Seq<EntryModel>) -> int
    decreases l.len(),
{
    if l.len() == 0 {
        0
    } else {
        (if spec_whitelisted(l[0].path) {
            0int
        } else {
            1int
        }) + spec_count_disallowed(l.drop_first())
    }
}

/// How many write steps a plan holds.
pub open spec fn spec_count_writes(p: Seq<ActionModel>) -> int
    decreases p.len(),
{
    if p.len() == 0 {
        0
    } else {
        (if p[0] is Write {
            1int
        } else {
            0int
        }) + spec_count_writes(p.drop_first())
    }
}

/// Partial whitelist rejection: of a table of N entries of which M are
/// disallowed, the plan holds exactly N steps, exactly N - M of them
/// writes and M of them rejections; a write step carries the entry's
/// packed location, a rejection its path.
pub proof fn lemma_plan_counts(l: Seq<EntryModel>, data_start: u64)
    ensures
        spec_plan(l, data_start).len() == l.len(),
        spec_count_writes(spec_plan(l, data_start)) == l.len() - spec_count_disallowed(l),
        0 <= spec_count_disallowed(l) <= l.len(),
        forall|k: int|
            0 <= k < l.len() ==> #[trigger] spec_plan(l, data_start)[k] == (if spec_whitelisted(
                l[k].path,
            ) {
                ActionModel::Write {
                    path: l[k].path,
                    offset: (data_start + l[k].index) as u64,
                    size: l[k].size,
                }
            } else {
                ActionModel::Reject { path: l[k].path }
            }),
    decreases l.len(),
{
    if l.len() > 0 {
        lemma_plan_counts(l.drop_first(), data_start);
        let p = spec_plan(l, data_start);
        let prest = spec_plan(l.drop_first(), data_start);
        assert(p.drop_first() =~= prest);
        assert forall|k: int| 0 <= k < l.len() implies #[trigger] p[k] == (if spec_whitelisted(
            l[k].path,
        ) {
            ActionModel::Write {
                path: l[k].path,
                offset: (data_start + l[k].index) as u64,
                size: l[k].size,
            }
        } else {
            ActionModel::Reject { path: l[k].path }
        }) by {
            if k > 0 {
                assert(p[k] == prest[k - 1]);
                assert(l[k] == l.drop_first()[k - 1]);
            }
        }
    }
}

/// Plans the extraction of a table whose packed data begins at absolute
/// offset `data_start`.  Fails with `FormatError` exactly where some
/// entry's absolute offset would not fit in 64 bits.
pub fn plan_extraction(entries: &Vec<GMAEntry>, data_start: u64) -> (r: Result<
    Vec<ExtractAction>,
    GMAError,
>)
    ensures
        match r {
            Ok(v) => {
                &&& v.deep_view() == spec_plan(entries.deep_view(), data_start)
                &&& forall|k: int|
                    0 <= k < entries.deep_view().len() ==> data_start + (
                    #[trigger] entries.deep_view()[k]).index <= u64::MAX
            },
            Err(e) => {
                &&& e == GMAError::FormatError
                &&& exists|k: int|
                    0 <= k < entries.deep_view().len() && data_start + (
                    #[trigger] entries.deep_view()[k]).index > u64::MAX
            },
        },
{
    let ghost l0 = entries.deep_view();
    let mut plan: Vec<ExtractAction> = Vec::new();
    let mut i: usize = 0;
    while i < entries.len()
        invariant
            i <= l0.len(),
            entries.deep_view() == l0,
            plan.deep_view().len() == i as int,
            forall|k: int|
                0 <= k < i ==> #[trigger] plan.deep_view()[k] == (if spec_whitelisted(
                    l0[k].path,
                ) {
                    ActionModel::Write {
                        path: l0[k].path,
                        offset: (data_start + l0[k].index) as u64,
                        size: l0[k].size,
                    }
                } else {
                    ActionModel::Reject { path: l0[k].path }
                }),
            forall|k: int| 0 <= k < i ==> data_start + (#[trigger] l0[k]).index <= u64::MAX,
        decreases l0.len() - i,
    {
        let e = &entries[i];
        let ghost dv0 = plan.deep_view();
        if check(e.path.as_str()) {
            if e.index > u64::MAX - data_start {
                proof {
                    assert(data_start + l0[i as int].index > u64::MAX);
                }
                return Err(GMAError::FormatError);
            }
            plan.push(ExtractAction::Write {
                path: e.path.clone(),
                offset: data_start + e.index,
                size: e.size,
            });
        } else {
            if e.index > u64::MAX - data_start {
                proof {
                    assert(data_start + l0[i as int].index > u64::MAX);
                }
                return Err(GMAError::FormatError);
            }
            plan.push(ExtractAction::Reject { path: e.path.clone() });
        }
        i = i + 1;
        proof {
            assert(plan.deep_view() =~= dv0.push(plan.deep_view().last()));
        }
    }
    proof {
        lemma_plan_counts(l0, data_start);
        assert(plan.deep_view() =~= spec_plan(l0, data_start));
    }
    Ok(plan)
}

/// The completion counter an extraction shares across its workers.  The
/// application must drive it under a single atomic fetch-add (one call
/// per finished or rejected entry); the decision of when finalization
/// runs is taken here.
#[derive(Debug, Clone, Copy, PartialEq, Eq, Structural)]
pub struct ExtractProgress {
    pub done: usize,
    pub total: usize,
}

/// Whether the completion step numbered `k` (1-based) of a job of
/// `total` entries triggers finalization.
pub open spec fn spec_finalize_at(k: int, total: int) -> bool {
    k == total
}

impl ExtractProgress {
    /// The counter is never past its total.
    pub open spec fn inv(&self) -> bool {
        self.done <= self.total
    }

    /// A fresh counter for a job of `total` entries.
    pub fn new(total: usize) -> (r: Self)
        ensures
            r.inv(),
            r.done == 0,
            r.total == total,
    {
        ExtractProgress { done: 0, total }
    }

    /// Records one completed (extracted or rejected) entry and says
    /// whether this completion is the one that runs finalization.
    pub fn record_done(&mut self) -> (finalize: bool)
        requires
            old(self).inv(),
            old(self).done < old(self).total,
        ensures
            final(self).inv(),
            final(self).total == old(self).total,
            final(self).done == old(self).done + 1,
            finalize == spec_finalize_at(final(self).done as int, final(self).total as int),
    {
        self.done = self.done + 1;
        self.done == self.total
    }

    /// The fraction of the job done, as a ratio of two integers (the
    /// sink multiplies this out to its progress value).
    pub fn fraction(&self) -> (r: (usize, usize))
        ensures
            r.0 == self.done,
            r.1 == self.total,
    {
        (self.done, self.total)
    }
}

/// Finalization exactly once: in a job of `total` entries, the
/// completion steps numbered 1 through `total` trigger finalization at
/// step `total` and at no other, whatever order the workers reach them
/// in.
pub proof fn lemma_finalize_exactly_once(total: int, i: int, j: int)
    requires
        1 <= i <= total,
        1 <= j <= total,
    ensures
        spec_finalize_at(total, total),
        spec_finalize_at(i, total) && spec_finalize_at(j, total) ==> i == j,
        i < total ==> !spec_finalize_at(i, total),
{
}

} // verus!

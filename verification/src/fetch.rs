//! Planning the data-source calls: an empty request is never sent, a
//! round's ids are cut into sub-batches no larger than the upstream
//! ceiling, each id travels in its wire form, and rate-limit replies
//! are retried a bounded number of times while any other upstream error
//! is surfaced at once.

use vstd::prelude::*;
use crate::paper::PaperId;
use crate::paper::wire_form_spec;

verus! {

/// The upstream ceiling on ids per batch call.
pub const MAX_IDS_PER_CALL: usize = 500;

/// Cuts `len` ids into consecutive index ranges: each non-empty, at
/// most the ceiling wide, and together tiling `0..len` in order.  An
/// empty input yields no ranges at all, so no call is ever made for it.
pub fn batch_ranges(len: usize) -> (r: Vec<(usize, usize)>)
    ensures
        (r@.len() == 0) <==> (len == 0),
        forall|i: int|
            0 <= i < r@.len() ==> (#[trigger] r@[i]).0 < r@[i].1 <= len && r@[i].1 - r@[i].0
                <= MAX_IDS_PER_CALL,
        forall|i: int| 0 <= i < r@.len() - 1 ==> (#[trigger] r@[i]).1 == r@[i + 1].0,
        r@.len() > 0 ==> r@[0].0 == 0 && r@[r@.len() - 1].1 == len,
{
    let mut r: Vec<(usize, usize)> = Vec::new();
    let mut lo: usize = 0;
    while lo < len
        invariant
            lo <= len,
            (r@.len() == 0) <==> (lo == 0),
            forall|i: int|
                0 <= i < r@.len() ==> (#[trigger] r@[i]).0 < r@[i].1 <= len && r@[i].1 - r@[i].0
                    <= MAX_IDS_PER_CALL,
            forall|i: int| 0 <= i < r@.len() - 1 ==> (#[trigger] r@[i]).1 == r@[i + 1].0,
            r@.len() > 0 ==> r@[0].0 == 0 && r@[r@.len() - 1].1 == lo,
        decreases len - lo,
    {
        let hi = if len - lo > MAX_IDS_PER_CALL {
            lo + MAX_IDS_PER_CALL
        } else {
            len
        };
        r.push((lo, hi));
        lo = hi;
    }
    r
}

/// The wire forms of a round's ids, in order: exactly what the data
/// source sends upstream for them.
pub fn wire_ids(ids: &Vec<PaperId>) -> (r: Vec<String>)
    ensures
        r@.map_values(|s: String| s@) == ids@.map_values(|p: PaperId| wire_form_spec(p@)),
{
    let ghost views = ids@.map_values(|p: PaperId| wire_form_spec(p@));
    let mut r: Vec<String> = Vec::new();
    proof {
        assert(r@.map_values(|s: String| s@) =~= Seq::<Seq<char>>::empty());
        assert(views.take(0) =~= Seq::<Seq<char>>::empty());
    }
    let mut i: usize = 0;
    while i < ids.len()
        invariant
            i <= ids.len(),
            views == ids@.map_values(|p: PaperId| wire_form_spec(p@)),
            r@.map_values(|s: String| s@) == views.take(i as int),
        decreases ids.len() - i,
    {
        let ghost before = r@.map_values(|s: String| s@);
        r.push(ids[i].wire_form());
        proof {
            assert(r@.map_values(|s: String| s@) =~= before.push(views[i as int]));
            assert(views.take(i + 1) =~= views.take(i as int).push(views[i as int]));
        }
        i = i + 1;
    }
    proof {
        assert(views.take(ids@.len() as int) =~= views);
    }
    r
}

/// How the transport classified one upstream reply.
#[derive(PartialEq, Eq, Structural, Clone, Copy, Debug)]
pub enum UpstreamReply {
    /// The call succeeded and carries a payload.
    Success,
    /// The upstream asked us to slow down.
    TooManyRequests,
    /// Any other upstream error class.
    OtherError,
}

/// What the data source does next with a sub-batch.
#[derive(PartialEq, Eq, Structural, Clone, Copy, Debug)]
pub enum FetchStep {
    /// Take the payload; the sub-batch is done.
    Accept,
    /// Issue the same sub-batch again.
    Retry,
    /// Give up and surface the distinct rate-limit error.
    FailRateLimited,
    /// Give up and surface the upstream error as it came.
    FailUpstream,
}

/// The retry rule: a rate-limit reply is retried until the attempt
/// budget is spent and then surfaced as a rate-limit failure; any other
/// upstream error is surfaced immediately; success is accepted.
/// `attempts_made` counts the attempts already issued, including the
/// one that produced `reply`.
pub open spec fn next_fetch_step_spec(
    reply: UpstreamReply,
    attempts_made: u64,
    max_attempts: u64,
) -> FetchStep {
    match reply {
        UpstreamReply::Success => FetchStep::Accept,
        UpstreamReply::OtherError => FetchStep::FailUpstream,
        UpstreamReply::TooManyRequests => if attempts_made < max_attempts {
            FetchStep::Retry
        } else {
            FetchStep::FailRateLimited
        },
    }
}

/// Decides a sub-batch's next step, as [`next_fetch_step_spec`] says.
pub fn next_fetch_step(reply: &UpstreamReply, attempts_made: u64, max_attempts: u64) -> (r:
    FetchStep)
    ensures
        r == next_fetch_step_spec(*reply, attempts_made, max_attempts),
{
    match reply {
        UpstreamReply::Success => FetchStep::Accept,
        UpstreamReply::OtherError => FetchStep::FailUpstream,
        UpstreamReply::TooManyRequests => {
            if attempts_made < max_attempts {
                FetchStep::Retry
            } else {
                FetchStep::FailRateLimited
            }
        },
    }
}

} // verus!

//! Room presentation facts that do not depend on a terminal: display-row roles
//! and the one-line delivery status summary.
use crate::room_delivery::{is_pending, DeliveryStatus, DeliveryStatusView, Status};
use crate::text::{owned, push_char, push_str};
use vstd::prelude::*;

verus! {

#[derive(Clone, Copy, Debug, PartialEq, Eq, Structural)]
pub enum TranscriptRole {
    Human,
    AgentHeader,
    Agent,
    Spacer,
}

impl TranscriptRole {
    /// Presentation-only inset; narrow viewports reserve all cells for text.
    pub fn inset(self, width: u16) -> (r: usize)
        ensures
            r == (if self == TranscriptRole::Human && width >= 3 { 1usize } else { 0usize }),
    {
        if self == TranscriptRole::Human && width >= 3 {
            1
        } else {
            0
        }
    }
}

pub open spec fn digit_char(d: nat) -> char
    recommends
        d < 10,
{
    (48 + d) as char
}

/// Decimal text of a natural number, most significant digit first.
pub open spec fn decimal(n: nat) -> Seq<char>
    decreases n,
{
    if n < 10 {
        seq![digit_char(n)]
    } else {
        decimal(n / 10).push(digit_char(n % 10))
    }
}

/// Appends the decimal text of `n`.
pub fn push_decimal(s: &mut String, n: u64)
    ensures
        final(s)@ == old(s)@ + decimal(n as nat),
    decreases n,
{
    if n >= 10 {
        push_decimal(s, n / 10);
    }
    let d = (n % 10) as u8;
    push_char(s, (48u8 + d) as char);
    proof {
        if n >= 10 {
            assert(decimal(n as nat) == decimal((n / 10) as nat).push(digit_char((n % 10) as nat)));
        }
    }
}

/// Decimal text of a number.
pub fn decimal_text(n: u64) -> (r: String)
    ensures
        r@ == decimal(n as nat),
{
    let mut s = String::new();
    push_decimal(&mut s, n);
    proof {
        assert(s@ =~= Seq::<char>::empty() + decimal(n as nat));
    }
    s
}

/// Status labels in the order a summary lists them (alphabetical by label).
pub open spec fn summary_order() -> Seq<Status> {
    seq![
        Status::Claimed,
        Status::Expired,
        Status::Failed,
        Status::Queued,
        Status::Replied,
        Status::Submitted,
        Status::Unanswered,
        Status::Unavailable,
    ]
}

pub open spec fn status_label(s: Status) -> Seq<char> {
    match s {
        Status::Queued => "queued"@,
        Status::Claimed => "claimed"@,
        Status::Submitted => "submitted"@,
        Status::Replied => "replied"@,
        Status::Unanswered => "unanswered"@,
        Status::Failed => "failed"@,
        Status::Unavailable => "unavailable"@,
        Status::Expired => "expired"@,
    }
}

fn label(s: Status) -> (r: String)
    ensures
        r@ == status_label(s),
{
    match s {
        Status::Queued => owned("queued"),
        Status::Claimed => owned("claimed"),
        Status::Submitted => owned("submitted"),
        Status::Replied => owned("replied"),
        Status::Unanswered => owned("unanswered"),
        Status::Failed => owned("failed"),
        Status::Unavailable => owned("unavailable"),
        Status::Expired => owned("expired"),
    }
}

/// Deliveries of request `sequence` currently in status `status`.
pub open spec fn count_with(ds: Seq<DeliveryStatusView>, sequence: u64, status: Status) -> nat {
    ds.filter(|d: DeliveryStatusView| d.request_sequence == sequence && d.status == status).len()
}

/// Deliveries of other requests that are still pending.
pub open spec fn earlier_pending(ds: Seq<DeliveryStatusView>, sequence: u64) -> nat {
    ds.filter(|d: DeliveryStatusView| d.request_sequence != sequence && is_pending(d.status)).len()
}

/// `"{count} {label}"` parts of the statuses in `order` that occur, joined by ` · `.
pub open spec fn counts_text(ds: Seq<DeliveryStatusView>, sequence: u64, order: Seq<Status>) -> Seq<char>
    decreases order.len(),
{
    if order.len() == 0 {
        Seq::empty()
    } else {
        let head = counts_text(ds, sequence, order.drop_last());
        let n = count_with(ds, sequence, order.last());
        if n == 0 {
            head
        } else {
            let part = decimal(n) + " "@ + status_label(order.last());
            if head.len() == 0 {
                part
            } else {
                head + " · "@ + part
            }
        }
    }
}

/// The newest delivery of request `sequence` that carries a detail.
pub open spec fn newest_detail(ds: Seq<DeliveryStatusView>, sequence: u64) -> Option<DeliveryStatusView>
    decreases ds.len(),
{
    if ds.len() == 0 {
        None
    } else if ds.last().request_sequence == sequence && ds.last().detail.is_some() {
        Some(ds.last())
    } else {
        newest_detail(ds.drop_last(), sequence)
    }
}

/// The status line for the newest request: earlier pending work, counts per
/// status of the newest request, and its newest detail.
pub open spec fn summary_text(ds: Seq<DeliveryStatusView>) -> Seq<char> {
    if ds.len() == 0 {
        Seq::empty()
    } else {
        let sequence = ds.last().request_sequence;
        let pending = earlier_pending(ds, sequence);
        let backlog = if pending > 0 {
            "Earlier requests: "@ + decimal(pending) + " pending · "@
        } else {
            Seq::empty()
        };
        let detail = match newest_detail(ds, sequence) {
            Some(d) => " · "@ + d.recipient.name + ": "@ + d.detail.unwrap(),
            None => Seq::empty(),
        };
        backlog + "#"@ + decimal(sequence as nat) + ": "@ + counts_text(ds, sequence, summary_order())
            + detail
    }
}

fn count_status(ds: &[DeliveryStatus], sequence: u64, status: Status) -> (r: u64)
    ensures
        r == count_with(ds@.map_values(|d: DeliveryStatus| d@), sequence, status),
{
    let ghost dv = ds@.map_values(|d: DeliveryStatus| d@);
    let ghost p = |d: DeliveryStatusView| d.request_sequence == sequence && d.status == status;
    let mut n: u64 = 0;
    let mut i: usize = 0;
    while i < ds.len()
        invariant
            dv == ds@.map_values(|d: DeliveryStatus| d@),
            p == (|d: DeliveryStatusView| d.request_sequence == sequence && d.status == status),
            i <= ds.len(),
            n == dv.take(i as int).filter(p).len(),
            n <= i,
        decreases ds.len() - i,
    {
        proof {
            assert(dv.take(i + 1).drop_last() =~= dv.take(i as int));
            assert(dv.take(i + 1).last() == ds@[i as int]@);
            reveal_with_fuel(Seq::filter, 1);
        }
        if ds[i].request_sequence == sequence && ds[i].status == status {
            n += 1;
        }
        i += 1;
    }
    proof {
        assert(dv.take(ds.len() as int) =~= dv);
    }
    n
}

fn count_earlier_pending(ds: &[DeliveryStatus], sequence: u64) -> (r: u64)
    ensures
        r == earlier_pending(ds@.map_values(|d: DeliveryStatus| d@), sequence),
{
    let ghost dv = ds@.map_values(|d: DeliveryStatus| d@);
    let ghost p = |d: DeliveryStatusView| d.request_sequence != sequence && is_pending(d.status);
    let mut n: u64 = 0;
    let mut i: usize = 0;
    while i < ds.len()
        invariant
            dv == ds@.map_values(|d: DeliveryStatus| d@),
            p == (|d: DeliveryStatusView| d.request_sequence != sequence && is_pending(d.status)),
            i <= ds.len(),
            n == dv.take(i as int).filter(p).len(),
            n <= i,
        decreases ds.len() - i,
    {
        proof {
            assert(dv.take(i + 1).drop_last() =~= dv.take(i as int));
            assert(dv.take(i + 1).last() == ds@[i as int]@);
            reveal_with_fuel(Seq::filter, 1);
        }
        if ds[i].request_sequence != sequence && ds[i].status.pending() {
            n += 1;
        }
        i += 1;
    }
    proof {
        assert(dv.take(ds.len() as int) =~= dv);
    }
    n
}

fn order_at(k: usize) -> (r: Status)
    requires
        k < 8,
    ensures
        r == summary_order()[k as int],
{
    match k {
        0 => Status::Claimed,
        1 => Status::Expired,
        2 => Status::Failed,
        3 => Status::Queued,
        4 => Status::Replied,
        5 => Status::Submitted,
        6 => Status::Unanswered,
        _ => Status::Unavailable,
    }
}

/// One line summarising the newest request's deliveries.
pub fn delivery_summary(deliveries: &[DeliveryStatus]) -> (r: String)
    ensures
        r@ == summary_text(deliveries@.map_values(|d: DeliveryStatus| d@)),
{
    let ghost dv = deliveries@.map_values(|d: DeliveryStatus| d@);
    if deliveries.len() == 0 {
        return String::new();
    }
    let sequence = deliveries[deliveries.len() - 1].request_sequence;
    proof {
        assert(dv.last() == deliveries@[deliveries.len() - 1]@);
    }
    let mut counts = String::new();
    let mut nonempty = false;
    let mut k: usize = 0;
    while k < 8
        invariant
            dv == deliveries@.map_values(|d: DeliveryStatus| d@),
            k <= 8,
            nonempty == (counts@.len() > 0),
            counts@ == counts_text(dv, sequence, summary_order().take(k as int)),
        decreases 8 - k,
    {
        let status = order_at(k);
        let n = count_status(deliveries, sequence, status);
        proof {
            assert(summary_order().take(k + 1).drop_last() =~= summary_order().take(k as int));
            assert(summary_order().take(k + 1).last() == status);
        }
        let ghost head = counts@;
        if n > 0 {
            if nonempty {
                push_str(&mut counts, " · ");
            }
            let ghost sep = counts@;
            nonempty = true;
            push_decimal(&mut counts, n);
            push_str(&mut counts, " ");
            let l = label(status);
            push_str(&mut counts, l.as_str());
            proof {
                let part = decimal(n as nat) + " "@ + status_label(status);
                assert(counts@ =~= sep + part);
                if head.len() == 0 {
                    assert(sep =~= head);
                    assert(counts@ =~= part);
                } else {
                    assert(counts@ =~= head + " · "@ + part);
                }
            }
        }
        k += 1;
    }
    proof {
        assert(summary_order().take(8) =~= summary_order());
    }
    // Newest delivery of this request that carries a detail.
    let mut found: Option<usize> = None;
    let mut i: usize = deliveries.len();
    proof {
        assert(dv.take(deliveries.len() as int) =~= dv);
    }
    while i > 0 && found.is_none()
        invariant
            dv == deliveries@.map_values(|d: DeliveryStatus| d@),
            i <= deliveries.len(),
            found.is_none() ==> newest_detail(dv, sequence) == newest_detail(dv.take(i as int), sequence),
            found matches Some(j) ==> j < deliveries.len() && newest_detail(dv, sequence) == Some(dv[j as int])
                && dv[j as int].detail.is_some(),
        decreases i + (if found.is_none() { 1int } else { 0int }),
    {
        let d = &deliveries[i - 1];
        proof {
            assert(dv.take(i as int).last() == d@);
            assert(dv.take(i as int).drop_last() =~= dv.take(i - 1));
            assert(dv[i - 1] == d@);
        }
        if d.request_sequence == sequence && d.detail.is_some() {
            found = Some(i - 1);
        } else {
            i -= 1;
        }
    }
    let mut detail = String::new();
    if let Some(j) = found {
        let d = &deliveries[j];
        if let Some(text) = &d.detail {
            push_str(&mut detail, " · ");
            push_str(&mut detail, d.recipient.name.as_str());
            push_str(&mut detail, ": ");
            push_str(&mut detail, text.as_str());
        }
    }
    let ghost detail_spec = match newest_detail(dv, sequence) {
        Some(d) => " · "@ + d.recipient.name + ": "@ + d.detail.unwrap(),
        None => Seq::<char>::empty(),
    };
    proof {
        if found.is_none() {
            assert(dv.take(0) =~= Seq::<DeliveryStatusView>::empty());
        } else {
            assert(dv[found.unwrap() as int] == deliveries@[found.unwrap() as int]@);
        }
        assert(detail@ =~= detail_spec);
    }
    let pending = count_earlier_pending(deliveries, sequence);
    let mut out = String::new();
    if pending > 0 {
        push_str(&mut out, "Earlier requests: ");
        push_decimal(&mut out, pending);
        push_str(&mut out, " pending · ");
    }
    push_str(&mut out, "#");
    push_decimal(&mut out, sequence);
    push_str(&mut out, ": ");
    push_str(&mut out, counts.as_str());
    push_str(&mut out, detail.as_str());
    proof {
        let backlog = if pending > 0 {
            "Earlier requests: "@ + decimal(pending as nat) + " pending · "@
        } else {
            Seq::<char>::empty()
        };
        assert(out@ =~= backlog + "#"@ + decimal(sequence as nat) + ": "@ + counts_text(dv, sequence, summary_order()) + detail_spec);
    }
    out
}

} // verus!

//! What survives a restart: the saved notifications that have not expired.
use vstd::prelude::*;
use crate::data::notification::{Notification, NotificationView};
use crate::data::cluster::views;

verus! {

/// A saved notification is still active at `now` unless it expires at or before then.
pub open spec fn is_active(n: NotificationView, now: u64) -> bool {
    !(n.expires && (n.expires_at matches Some(e) && e <= now))
}

/// The notifications of `s` still active at `now`, in order.
pub open spec fn active_spec(s: Seq<NotificationView>, now: u64) -> Seq<NotificationView>
    decreases s.len(),
{
    if s.len() == 0 {
        Seq::empty()
    } else if is_active(s.last(), now) {
        active_spec(s.drop_last(), now).push(s.last())
    } else {
        active_spec(s.drop_last(), now)
    }
}

/// Keeps the notifications still active at `now_ns`; see `active_spec`.
pub fn retain_active(notifications: Vec<Notification>, now_ns: u64) -> (r: Vec<Notification>)
    ensures
        views(r@) == active_spec(views(notifications@), now_ns),
{
    let ghost vs = views(notifications@);
    let mut out: Vec<Notification> = Vec::new();
    let rest = notifications;
    let n = rest.len();
    let mut i: usize = 0;
    while i < n
        invariant
            n == rest@.len(),
            vs == views(rest@),
            i <= n,
            views(out@) == active_spec(vs.subrange(0, i as int), now_ns),
        decreases n - i,
    {
        proof {
            assert(vs.subrange(0, i as int + 1).drop_last() =~= vs.subrange(0, i as int));
        }
        let keep = {
            let x = &rest[i];
            !(x.expires && match x.expires_at {
                Some(e) => e <= now_ns,
                None => false,
            })
        };
        assert(keep == is_active(vs[i as int], now_ns));
        assert(vs.subrange(0, i as int + 1).last() == vs[i as int]);
        assert(active_spec(vs.subrange(0, i as int + 1), now_ns) == (if keep {
            active_spec(vs.subrange(0, i as int), now_ns).push(vs[i as int])
        } else {
            active_spec(vs.subrange(0, i as int), now_ns)
        }));
        if keep {
            let c = rest[i].clone();
            let ghost before = out@;
            out.push(c);
            assert(views(out@) =~= views(before).push(vs[i as int]));
        }
        i = i + 1;
    }
    assert(vs.subrange(0, n as int) =~= vs);
    out
}

} // verus!

//! Expiry deadlines of records that carry a time-to-live.
use vstd::prelude::*;
use crate::error::DbError;

verus! {

/// A pending expiry: the identifier of a record and the instant, in seconds,
/// at or after which it is removed.
#[derive(Clone, Debug)]
pub struct TtlEntry {
    pub id: Vec<u8>,
    pub expire_at: u64,
}

/// The pending expiries, in the order they were registered.
pub struct Ttl {
    pub entries: Vec<TtlEntry>,
}

/// The mathematical value of a [`TtlEntry`].
pub open spec fn deadline(e: TtlEntry) -> (Seq<u8>, u64) {
    (e.id@, e.expire_at)
}

pub open spec fn deadlines(es: Seq<TtlEntry>) -> Seq<(Seq<u8>, u64)> {
    es.map_values(|e: TtlEntry| deadline(e))
}

/// The entries that are still pending at instant `now`, in order.
pub open spec fn pending(es: Seq<(Seq<u8>, u64)>, now: u64) -> Seq<(Seq<u8>, u64)>
    decreases es.len(),
{
    if es.len() == 0 {
        Seq::empty()
    } else {
        let p = pending(es.drop_last(), now);
        if es.last().1 > now {
            p.push(es.last())
        } else {
            p
        }
    }
}

/// The identifiers whose deadline has been reached at instant `now`, in order.
pub open spec fn expired(es: Seq<(Seq<u8>, u64)>, now: u64) -> Seq<Seq<u8>>
    decreases es.len(),
{
    if es.len() == 0 {
        Seq::empty()
    } else {
        let x = expired(es.drop_last(), now);
        if es.last().1 <= now {
            x.push(es.last().0)
        } else {
            x
        }
    }
}

impl Ttl {
    pub open spec fn view(&self) -> Seq<(Seq<u8>, u64)> {
        deadlines(self.entries@)
    }

    /// An empty schedule.
    pub fn new() -> (r: Ttl)
        ensures
            r.view() == Seq::<(Seq<u8>, u64)>::empty(),
    {
        let r = Ttl { entries: Vec::new() };
        assert(r.view() =~= Seq::<(Seq<u8>, u64)>::empty());
        r
    }

    /// Registers record `id`, stored at instant `now` with a retention of
    /// `ttl` seconds. Fails, changing nothing, when the deadline does not fit
    /// in a `u64`.
    pub fn add_entry(&mut self, id: Vec<u8>, now: u64, ttl: u64) -> (r: Result<(), DbError>)
        ensures
            r is Ok <==> now + ttl <= u64::MAX,
            r is Ok ==> final(self).view() == old(self).view().push((id@, (now + ttl) as u64)),
            r is Err ==> r == Err::<(), DbError>(DbError::Unspecified) && final(self).view()
                == old(self).view(),
    {
        match now.checked_add(ttl) {
            None => Err(DbError::Unspecified),
            Some(expire_at) => {
                let ghost before = self.entries@;
                self.entries.push(TtlEntry { id, expire_at });
                assert(deadlines(self.entries@) =~= deadlines(before).push(
                    (self.entries@.last().id@, expire_at),
                ));
                Ok(())
            },
        }
    }

    /// Removes every entry whose deadline is at or before `now` and returns
    /// their identifiers in registration order; the others stay, in order.
    pub fn take_expired(&mut self, now: u64) -> (r: Vec<Vec<u8>>)
        ensures
            r@.map_values(|v: Vec<u8>| v@) == expired(old(self).view(), now),
            final(self).view() == pending(old(self).view(), now),
    {
        let ghost all = self.view();
        let mut kept: Vec<TtlEntry> = Vec::new();
        let mut out: Vec<Vec<u8>> = Vec::new();
        let mut i: usize = 0;
        while i < self.entries.len()
            invariant
                i <= self.entries@.len(),
                all == deadlines(self.entries@),
                deadlines(kept@) == pending(all.take(i as int), now),
                out@.map_values(|v: Vec<u8>| v@) == expired(all.take(i as int), now),
            decreases self.entries@.len() - i,
        {
            let e = &self.entries[i];
            let ghost prev = all.take(i as int);
            let ghost ks = kept@;
            let ghost os = out@;
            assert(all.take(i + 1).drop_last() =~= prev);
            assert(all.take(i + 1).last() == deadline(*e));
            if e.expire_at > now {
                let id = crate::codec::copy_range(&e.id, 0, e.id.len());
                assert(e.id@.subrange(0, e.id@.len() as int) =~= e.id@);
                kept.push(TtlEntry { id, expire_at: e.expire_at });
                assert(deadlines(kept@) =~= deadlines(ks).push(deadline(*e)));
                assert(out@.map_values(|v: Vec<u8>| v@) == expired(all.take(i + 1), now));
            } else {
                let id = crate::codec::copy_range(&e.id, 0, e.id.len());
                assert(e.id@.subrange(0, e.id@.len() as int) =~= e.id@);
                out.push(id);
                assert(out@.map_values(|v: Vec<u8>| v@) =~= os.map_values(|v: Vec<u8>| v@).push(
                    e.id@,
                ));
            }
            i = i + 1;
        }
        assert(all.take(i as int) =~= all);
        self.entries = kept;
        out
    }
}

/// A deadline that has been reached is handed out by `take_expired`, and one
/// that has not is kept: an entry registered with deadline `d` leaves the
/// schedule exactly when the clock reaches `d`.
pub proof fn lemma_expiry_exact(es: Seq<(Seq<u8>, u64)>, i: int, now: u64)
    requires
        0 <= i < es.len(),
    ensures
        es[i].1 <= now ==> expired(es, now).contains(es[i].0),
        es[i].1 > now ==> pending(es, now).contains(es[i]),
    decreases es.len(),
{
    let last = es.len() - 1;
    if i == last {
        if es[i].1 <= now {
            assert(expired(es, now).last() == es[i].0);
        } else {
            assert(pending(es, now).last() == es[i]);
        }
    } else {
        lemma_expiry_exact(es.drop_last(), i, now);
        let x = expired(es.drop_last(), now);
        let p = pending(es.drop_last(), now);
        if es[i].1 <= now {
            let k = choose|k: int| 0 <= k < x.len() && x[k] == es[i].0;
            if es.last().1 <= now {
                assert(expired(es, now)[k] == es[i].0);
            }
        } else {
            let k = choose|k: int| 0 <= k < p.len() && p[k] == es[i];
            if es.last().1 > now {
                assert(pending(es, now)[k] == es[i]);
            }
        }
    }
}

/// Only registered identifiers ever expire: an identifier that no entry of
/// the schedule carries (such as that of a permanent record, which is never
/// registered) is never handed out, whatever the instant.
pub proof fn lemma_only_registered_expire(es: Seq<(Seq<u8>, u64)>, id: Seq<u8>, now: u64)
    requires
        forall|i: int| 0 <= i < es.len() ==> #[trigger] es[i].0 != id,
    ensures
        !expired(es, now).contains(id),
    decreases es.len(),
{
    if es.len() > 0 {
        let d = es.drop_last();
        assert forall|i: int| 0 <= i < d.len() implies #[trigger] d[i].0 != id by {
            assert(d[i] == es[i]);
        }
        lemma_only_registered_expire(d, id, now);
        assert(es.last() == es[es.len() - 1]);
        if es.last().1 <= now {
            assert(expired(es, now) == expired(d, now).push(es.last().0));
            assert(forall|k: int| 0 <= k < expired(d, now).len() ==> expired(es, now)[k] == expired(d, now)[k]);
        }
    }
}

/// A record registered at instant `at` with a retention of `ttl` seconds is
/// handed out at any instant `now` at or after `at + ttl`, and kept at any
/// instant before it.
pub proof fn lemma_registered_deadline(
    es: Seq<(Seq<u8>, u64)>,
    id: Seq<u8>,
    at: u64,
    ttl: u64,
    now: u64,
)
    requires
        at + ttl <= u64::MAX,
    ensures
        at + ttl <= now ==> expired(es.push((id, (at + ttl) as u64)), now).contains(id),
        at + ttl > now ==> pending(es.push((id, (at + ttl) as u64)), now).contains(
            (id, (at + ttl) as u64),
        ),
{
    let all = es.push((id, (at + ttl) as u64));
    lemma_expiry_exact(all, es.len() as int, now);
}

} // verus!

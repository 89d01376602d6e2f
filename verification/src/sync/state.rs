//! The backlog of a channel to Studio: every message gets the next number,
//! the newest `limit` are kept, and a reader resumes from the number after
//! the last message it saw.
use vstd::prelude::*;
use crate::paths::views;

verus! {

/// The messages of a channel still kept, after those dropped for room.
#[derive(Debug)]
pub struct Backlog {
    dropped: usize,
    items: Vec<String>,
    limit: usize,
}

/// A `Backlog` as numbers and character sequences.
pub struct BacklogV {
    pub dropped: nat,
    pub items: Seq<Seq<char>>,
    pub limit: nat,
}

impl View for Backlog {
    type V = BacklogV;

    closed spec fn view(&self) -> BacklogV {
        BacklogV { dropped: self.dropped as nat, items: views(self.items@), limit: self.limit as nat }
    }
}

/// The number the next message gets: how many there have been.
pub open spec fn cursor_of(b: BacklogV) -> nat {
    b.dropped + b.items.len()
}

/// The backlog once `m` is added: the oldest messages beyond the limit are
/// dropped.
pub open spec fn pushed(b: BacklogV, m: Seq<char>) -> BacklogV {
    let all = b.items.push(m);
    if all.len() > b.limit {
        BacklogV {
            dropped: b.dropped + (all.len() - b.limit) as nat,
            items: all.skip(all.len() - b.limit),
            limit: b.limit,
        }
    } else {
        BacklogV { items: all, ..b }
    }
}

/// Where a reader that has seen up to `cursor` starts among the kept
/// messages.
pub open spec fn start_of(b: BacklogV, cursor: nat) -> int {
    let s = if cursor > b.dropped {
        cursor - b.dropped
    } else {
        0
    };
    if s < b.items.len() {
        s
    } else {
        b.items.len() as int
    }
}

/// What a reader that has seen up to `cursor` is sent: the cursor to
/// resume from and the kept messages from its start on.
pub open spec fn since_spec(b: BacklogV, cursor: nat) -> (nat, Seq<Seq<char>>) {
    (cursor_of(b), b.items.skip(start_of(b, cursor)))
}

impl Backlog {
    #[verifier::type_invariant]
    closed spec fn wf(self) -> bool {
        self.items@.len() <= self.limit && self.dropped + self.items@.len() <= usize::MAX
    }

    /// The kept messages never outnumber the limit.
    pub fn within_limit(&self)
        ensures
            self@.items.len() <= self@.limit,
            cursor_of(self@) <= usize::MAX,
    {
        proof {
            use_type_invariant(self);
        }
    }

    /// An empty backlog keeping at most `limit` messages.
    pub fn new(limit: usize) -> (r: Backlog)
        ensures
            r@ == (BacklogV { dropped: 0, items: Seq::empty(), limit: limit as nat }),
    {
        let r = Backlog { dropped: 0, items: Vec::new(), limit };
        assert(views(r.items@) =~= Seq::<Seq<char>>::empty());
        r
    }

    /// The number the next message gets.
    pub fn cursor(&self) -> (r: usize)
        ensures
            r == cursor_of(self@),
    {
        proof {
            use_type_invariant(self);
        }
        self.dropped + self.items.len()
    }

    /// Adds a message, dropping the oldest beyond the limit.
    pub fn push(&mut self, encoded: String)
        requires
            cursor_of(old(self)@) < usize::MAX,
        ensures
            final(self)@ == pushed(old(self)@, encoded@),
    {
        proof {
            use_type_invariant(&*self);
        }
        let ghost before = self@;
        let ghost m = encoded@;
        let mut items = Vec::new();
        std::mem::swap(&mut items, &mut self.items);
        let ghost prev = views(items@);
        items.push(encoded);
        assert(views(items@) =~= prev.push(m));
        if items.len() > self.limit {
            let excess = items.len() - self.limit;
            let mut kept: Vec<String> = Vec::new();
            let mut i: usize = excess;
            while i < items.len()
                invariant
                    excess <= i <= items@.len(),
                    views(kept@) == views(items@).subrange(excess as int, i as int),
                decreases items@.len() - i,
            {
                let ghost k = views(kept@);
                kept.push(items[i].clone());
                assert(views(kept@) =~= k.push(items@[i as int]@));
                assert(views(items@).subrange(excess as int, i + 1) =~= views(items@).subrange(
                    excess as int,
                    i as int,
                ).push(items@[i as int]@));
                i = i + 1;
            }
            assert(views(kept@) =~= views(items@).skip(excess as int));
            self.dropped = self.dropped + excess;
            self.items = kept;
        } else {
            self.items = items;
        }
        assert(self@ =~= pushed(before, m));
    }

    /// The cursor to resume from and the kept messages a reader that has
    /// seen up to `cursor` has not.
    pub fn since(&self, cursor: usize) -> (r: (usize, Vec<String>))
        ensures
            (r.0 as nat, views(r.1@)) == since_spec(self@, cursor as nat),
    {
        proof {
            use_type_invariant(self);
        }
        let end = self.dropped + self.items.len();
        let skip = if cursor > self.dropped {
            cursor - self.dropped
        } else {
            0
        };
        let start = if skip < self.items.len() {
            skip
        } else {
            self.items.len()
        };
        let mut out: Vec<String> = Vec::new();
        let mut i: usize = start;
        while i < self.items.len()
            invariant
                start <= i <= self.items@.len(),
                views(out@) == views(self.items@).subrange(start as int, i as int),
            decreases self.items@.len() - i,
        {
            let ghost k = views(out@);
            out.push(self.items[i].clone());
            assert(views(out@) =~= k.push(self.items@[i as int]@));
            assert(views(self.items@).subrange(start as int, i + 1) =~= views(self.items@).subrange(
                start as int,
                i as int,
            ).push(self.items@[i as int]@));
            i = i + 1;
        }
        assert(views(out@) =~= views(self.items@).skip(start as int));
        (end, out)
    }
}

/// Each message added moves the cursor on by one.
pub proof fn law_push_advances(b: BacklogV, m: Seq<char>)
    ensures
        cursor_of(pushed(b, m)) == cursor_of(b) + 1,
{
}

/// A reader that had seen everything gets exactly the message added since,
/// and the cursor after it, as long as the backlog keeps any message.
pub proof fn law_push_then_since(b: BacklogV, m: Seq<char>)
    requires
        b.items.len() <= b.limit,
        b.limit >= 1,
    ensures
        since_spec(pushed(b, m), cursor_of(b)) == (cursor_of(b) + 1, seq![m]),
{
    let p = pushed(b, m);
    assert(p.items.last() == m);
    if b.items.len() + 1 > b.limit {
        assert(p.items.len() == b.limit);
        assert(p.dropped == b.dropped + 1);
    }
    assert(start_of(p, cursor_of(b)) == p.items.len() - 1);
    assert(p.items.skip(p.items.len() - 1) =~= seq![m]);
}

/// A reader resuming from any cursor between the oldest kept message and
/// the newest gets the messages from that number on, in order.
pub proof fn law_since_resumes(b: BacklogV, cursor: nat)
    requires
        b.dropped <= cursor <= cursor_of(b),
    ensures
        since_spec(b, cursor).1 == b.items.skip(cursor - b.dropped),
        since_spec(b, cursor).1.len() == cursor_of(b) - cursor,
{
}

/// A reader that is up to date is sent nothing.
pub proof fn law_since_current(b: BacklogV)
    ensures
        since_spec(b, cursor_of(b)) == (cursor_of(b), Seq::<Seq<char>>::empty()),
{
    assert(b.items.skip(b.items.len() as int) =~= Seq::<Seq<char>>::empty());
}

/// The backlog once each of `ms` is added in turn.
pub open spec fn pushes(b: BacklogV, ms: Seq<Seq<char>>) -> BacklogV
    decreases ms.len(),
{
    if ms.len() == 0 {
        b
    } else {
        pushed(pushes(b, ms.drop_last()), ms.last())
    }
}

/// After any number of messages the backlog keeps the newest of all the
/// messages, as many as its limit allows, and counts the others dropped.
proof fn lemma_pushes_keep(b: BacklogV, ms: Seq<Seq<char>>)
    requires
        b.items.len() <= b.limit,
    ensures
        ({
            let all = b.items + ms;
            let k: int = if all.len() > b.limit { all.len() - b.limit } else { 0 };
            &&& pushes(b, ms).items == all.skip(k)
            &&& pushes(b, ms).dropped == b.dropped + k
            &&& pushes(b, ms).limit == b.limit
        }),
    decreases ms.len(),
{
    if ms.len() > 0 {
        lemma_pushes_keep(b, ms.drop_last());
        let all = b.items + ms;
        let prev = b.items + ms.drop_last();
        assert(prev.push(ms.last()) =~= all);
        let k0: int = if prev.len() > b.limit { prev.len() - b.limit } else { 0 };
        let k: int = if all.len() > b.limit { all.len() - b.limit } else { 0 };
        assert(prev.skip(k0).push(ms.last()) =~= all.skip(k0));
        if all.len() > b.limit {
            assert(all.skip(k0).skip(all.skip(k0).len() - b.limit) =~= all.skip(k));
        }
    }
}

/// Each message added moves the cursor on by one, however many are added;
/// a reader that had seen everything before gets exactly the messages
/// added since, in order, as long as the backlog can keep them all.
pub proof fn law_pushes_then_since(b: BacklogV, ms: Seq<Seq<char>>)
    requires
        b.items.len() <= b.limit,
    ensures
        cursor_of(pushes(b, ms)) == cursor_of(b) + ms.len(),
        ms.len() <= b.limit ==> since_spec(pushes(b, ms), cursor_of(b)) == (cursor_of(b) + ms.len(), ms),
{
    lemma_pushes_keep(b, ms);
    let p = pushes(b, ms);
    let all = b.items + ms;
    let k: int = if all.len() > b.limit { all.len() - b.limit } else { 0 };
    if ms.len() <= b.limit {
        assert(start_of(p, cursor_of(b)) == b.items.len() - k);
        assert(p.items.skip(b.items.len() - k) =~= ms);
    }
}

/// A backlog made with room for `limit` messages that has been sent the
/// messages `ms`, in order, has numbered them all, keeps the newest of
/// them, as many as the limit allows, in order, and sends a reader that
/// has seen up to any cursor those it keeps from that cursor on.
pub proof fn law_history(limit: nat, ms: Seq<Seq<char>>, cursor: nat)
    ensures
        ({
            let b = pushes(BacklogV { dropped: 0, items: Seq::empty(), limit }, ms);
            let n = ms.len() as int;
            let gone: int = if n > limit { n - limit } else { 0 };
            let from: int = if cursor < gone {
                gone
            } else if cursor > n {
                n
            } else {
                cursor as int
            };
            &&& cursor_of(b) == n
            &&& b.items == ms.subrange(gone, n)
            &&& since_spec(b, cursor) == (n as nat, ms.subrange(from, n))
        }),
{
    let b0 = BacklogV { dropped: 0, items: Seq::empty(), limit };
    lemma_pushes_keep(b0, ms);
    assert(b0.items + ms =~= ms);
    let b = pushes(b0, ms);
    let n = ms.len() as int;
    let gone: int = if n > limit { n - limit } else { 0 };
    let from: int = if cursor < gone {
        gone
    } else if cursor > n {
        n
    } else {
        cursor as int
    };
    assert(b.items =~= ms.subrange(gone, n));
    assert(start_of(b, cursor) == from - gone);
    assert(b.items.skip(from - gone) =~= ms.subrange(from, n));
}

} // verus!

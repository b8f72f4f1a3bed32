//! Configuration values and per-user subscription bookkeeping: what a user
//! follows, how they are notified, and the in-memory shape of the two
//! persisted stores (posted notices and user subscriptions).

use crate::schedule::UnitSchedule;
use crate::text::{str_contains, str_has_sub};
use crate::notices::{kyuko_eq, Kyuko};
use vstd::prelude::*;

verus! {

/// One thing a user follows: notices matching a title (and optionally a
/// lecturer) pattern, or one posted notice by its status id.
#[derive(Debug)]
pub enum Follow {
    Pattern { title: String, lecturer: Option<String> },
    TweetId(u64),
}

impl Follow {
    pub open spec fn same_target(self, other: Follow) -> bool {
        match (self, other) {
            (Follow::Pattern { title: t1, lecturer: l1 }, Follow::Pattern {
                title: t2,
                lecturer: l2,
            }) => t1@ == t2@ && crate::notices::opt_string_eq(l1, l2),
            (Follow::TweetId(a), Follow::TweetId(b)) => a == b,
            _ => false,
        }
    }

    /// Whether two follow targets name the same pattern or status.
    pub fn is_same_target(&self, other: &Follow) -> (r: bool)
        ensures
            r == self.same_target(*other),
    {
        match (self, other) {
            (
                Follow::Pattern { title: t1, lecturer: l1 },
                Follow::Pattern { title: t2, lecturer: l2 },
            ) => {
                let le = match (l1, l2) {
                    (Option::None, Option::None) => true,
                    (Option::Some(a), Option::Some(b)) => *a == *b,
                    _ => false,
                };
                *t1 == *t2 && le
            },
            (Follow::TweetId(a), Follow::TweetId(b)) => a == b,
            _ => false,
        }
    }

    /// Whether a notice is covered by this follow entry: a pattern matches
    /// when the notice's title contains the pattern's title text and, if a
    /// lecturer is given, the notice's lecturer contains it. A followed
    /// status id matches no notice by content.
    pub fn matches(&self, k: &Kyuko) -> (r: bool)
        ensures
            r == match *self {
                Follow::Pattern { title, lecturer } => str_has_sub(k.title@, title@) && match lecturer {
                    Option::Some(l) => str_has_sub(k.lecturer@, l@),
                    Option::None => true,
                },
                Follow::TweetId(_) => false,
            },
    {
        match self {
            Follow::Pattern { title, lecturer } => {
                let t = str_contains(k.title.as_str(), title.as_str());
                let l = match lecturer {
                    Some(l) => str_contains(k.lecturer.as_str(), l.as_str()),
                    None => true,
                };
                t && l
            },
            Follow::TweetId(_) => false,
        }
    }
}


/// How a user is notified: by direct message or by a reply.
#[derive(Clone, Copy, PartialEq, Eq, Structural, Debug)]
pub enum MessageMethod {
    Dm,
    Reply,
}

impl MessageMethod {
    /// The method's display form.
    pub fn display_string(&self) -> (r: String)
        ensures
            (*self == MessageMethod::Dm ==> r@ == "DM"@),
            (*self == MessageMethod::Reply ==> r@ == "@"@),
    {
        match self {
            MessageMethod::Dm => String::from_str("DM"),
            MessageMethod::Reply => String::from_str("@"),
        }
    }
}

/// A follow target together with the notification method for it.
#[derive(Debug)]
pub struct FollowEntry(pub Follow, pub MessageMethod);


/// Why a follow request is refused.
#[derive(Debug)]
pub enum FollowError {
    /// The user already follows this target by the same method; holds the
    /// existing subscription's identifier.
    AlreadyFollowing(u64),
    /// The named status is not among the posted notices.
    TweetDoesNotExist(u64),
}

/// Whether a follow request was refused as a duplicate.
pub open spec fn refused_as_duplicate(r: Result<(u64, FollowOutcome), FollowError>) -> bool {
    match r {
        Result::Err(FollowError::AlreadyFollowing(_)) => true,
        _ => false,
    }
}

/// Whether a follow request was refused for naming an unknown status.
pub open spec fn refused_as_unknown_status(r: Result<(u64, FollowOutcome), FollowError>) -> bool {
    match r {
        Result::Err(FollowError::TweetDoesNotExist(_)) => true,
        _ => false,
    }
}

/// What a successful follow request subscribed to.
#[derive(Debug)]
pub enum FollowOutcome {
    /// A title (and optional lecturer) pattern.
    Pattern { title: String, lecturer: Option<String> },
    /// One posted notice: its status id and its position in the posted
    /// store (department index, then entry index within the department).
    Tweet { status_id: u64, dept: usize, item: usize },
}

/// The posted-notice store's in-memory shape: per department (keyed by its
/// source URL), the notices posted, keyed by their status id.
pub type Tweeted = Vec<(String, Vec<(u64, Kyuko)>)>;

/// Looks a status id up across every department of the posted store.
pub fn find_tweet(tweeted: &Tweeted, id: u64) -> (r: Option<(usize, usize)>)
    ensures
        r matches Some((di, ki)) ==> di < tweeted@.len() && ki < tweeted@[di as int].1@.len()
            && tweeted@[di as int].1@[ki as int].0 == id,
        r is None ==> forall|di: int, ki: int|
            0 <= di < tweeted@.len() && 0 <= ki < tweeted@[di].1@.len() ==> (
            #[trigger] tweeted@[di].1@[ki]).0 != id,
{
    let nd = tweeted.len();
    for di in 0..nd
        invariant
            nd == tweeted@.len(),
            forall|d: int, k: int|
                0 <= d < di && 0 <= k < tweeted@[d].1@.len() ==> (#[trigger] tweeted@[d].1@[k]).0
                    != id,
    {
        let nk = tweeted[di].1.len();
        for ki in 0..nk
            invariant
                nd == tweeted@.len(),
                di < nd,
                nk == tweeted@[di as int].1@.len(),
                forall|d: int, k: int|
                    0 <= d < di && 0 <= k < tweeted@[d].1@.len() ==> (#[trigger] tweeted@[d].1@[k]).0
                        != id,
                forall|k: int|
                    0 <= k < ki ==> (#[trigger] tweeted@[di as int].1@[k]).0 != id,
        {
            if tweeted[di].1[ki].0 == id {
                return Some((di, ki));
            }
        }
    }
    None
}

/// One user's state: their subscriptions, keyed by a small identifier, and
/// the identifier to hand out next.
#[derive(Debug)]
pub struct UserInfo {
    pub following: Vec<(u64, FollowEntry)>,
    pub next_id: u64,
}

impl UserInfo {
    pub open spec fn wf(self) -> bool {
        forall|i: int, j: int|
            0 <= i < j < self.following@.len() ==> (#[trigger] self.following@[i]).0 != (
            #[trigger] self.following@[j]).0
    }

    /// Drops every subscription and restarts the identifiers.
    pub fn clear(&mut self)
        ensures
            final(self).following@.len() == 0,
            final(self).next_id == 0,
            final(self).wf(),
    {
        self.following.clear();
        self.next_id = 0;
    }

    /// Removes the subscription with the given identifier and returns it,
    /// or nothing when no subscription has that identifier.
    pub fn unfollow(&mut self, id: u64) -> (r: Option<FollowEntry>)
        requires
            old(self).wf(),
        ensures
            final(self).wf(),
            final(self).next_id == old(self).next_id,
            (r is Some <==> exists|i: int|
                0 <= i < old(self).following@.len() && (#[trigger] old(self).following@[i]).0
                    == id),
            r matches Some(ent) ==> exists|i: int|
                {
                    &&& 0 <= i < old(self).following@.len()
                    &&& (#[trigger] old(self).following@[i]).0 == id
                    &&& ent == old(self).following@[i].1
                    &&& final(self).following@ == old(self).following@.remove(i)
                },
            r is None ==> *final(self) == *old(self),
    {
        let n = self.following.len();
        for i in 0..n
            invariant
                n == self.following@.len(),
                *self == *old(self),
                old(self).wf(),
                forall|j: int| 0 <= j < i ==> (#[trigger] self.following@[j]).0 != id,
        {
            if self.following[i].0 == id {
                let (_, ent) = self.following.remove(i);
                proof {
                    old(self).following@.remove_ensures(i as int);
                    assert forall|p: int, q: int|
                        0 <= p < q < self.following@.len() implies (
                    #[trigger] self.following@[p]).0 != (#[trigger] self.following@[q]).0 by {
                        if q < i {
                        } else if p < i {
                            assert(self.following@[q] == old(self).following@[q + 1]);
                        } else {
                            assert(self.following@[p] == old(self).following@[p + 1]);
                            assert(self.following@[q] == old(self).following@[q + 1]);
                        }
                    }
                }
                return Some(ent);
            }
        }
        None
    }

    /// The first subscription whose target equals `target` is at index `i`.
    pub open spec fn first_match_at(self, target: Follow, i: int) -> bool {
        &&& 0 <= i < self.following@.len()
        &&& self.following@[i].1.0.same_target(target)
        &&& forall|j: int| 0 <= j < i ==> !(#[trigger] self.following@[j]).1.0.same_target(target)
    }

    /// Subscribes the user to a target. A subscription to the same target
    /// by the same method is refused; one by the other method is replaced.
    /// Following a status id requires the notice to be among the posted
    /// ones. On success the new subscription is appended under the next
    /// identifier.
    pub fn follow(&mut self, target: Follow, via: MessageMethod, tweeted: &Tweeted) -> (r: Result<
        (u64, FollowOutcome),
        FollowError,
    >)
        requires
            old(self).next_id < u64::MAX,
        ensures
            (refused_as_duplicate(r) <==> exists|i: int|
                #[trigger] old(self).first_match_at(target, i) && old(self).following@[i].1.1
                    == via),
            (r matches Err(FollowError::AlreadyFollowing(id)) ==> (*final(self) == *old(self)
                && exists|i: int|
                #[trigger] old(self).first_match_at(target, i) && old(self).following@[i].1.1
                    == via && id == old(self).following@[i].0)),
            (refused_as_unknown_status(r) <==> (!refused_as_duplicate(r) && exists|tid: u64|
                target == Follow::TweetId(tid) && forall|di: int, ki: int|
                    0 <= di < tweeted@.len() && 0 <= ki < tweeted@[di].1@.len() ==> (
                    #[trigger] tweeted@[di].1@[ki]).0 != tid)),
            (r matches Err(FollowError::TweetDoesNotExist(id)) ==> (target == Follow::TweetId(id)
                && final(self).next_id == old(self).next_id && (*final(self) == *old(self)
                || exists|f: int|
                #[trigger] old(self).first_match_at(target, f) && old(self).following@[f].1.1
                    != via && final(self).following@ == old(self).following@.remove(f)))),
            (r matches Ok((id, _)) ==> {
                &&& id == old(self).next_id
                &&& final(self).next_id == old(self).next_id + 1
                &&& ({
                    ||| final(self).following@ == old(self).following@.push(
                        (old(self).next_id, FollowEntry(target, via)),
                    )
                    ||| exists|f: int|
                        #[trigger] old(self).first_match_at(target, f) && final(self).following@
                            == old(self).following@.remove(f).push(
                            (old(self).next_id, FollowEntry(target, via)),
                        )
                })
            }),
            (r matches Ok((_, FollowOutcome::Tweet { status_id, dept, item })) ==> {
                &&& target == Follow::TweetId(status_id)
                &&& (dept as int) < tweeted@.len()
                &&& (item as int) < tweeted@[dept as int].1@.len()
                &&& tweeted@[dept as int].1@[item as int].0 == status_id
            }),
            (r matches Ok((_, FollowOutcome::Pattern { title, lecturer })) ==> target == (
            Follow::Pattern { title, lecturer })),
    {
        // an existing subscription to the same target?
        let n = self.following.len();
        let mut found: Option<usize> = None;
        for i in 0..n
            invariant
                n == self.following@.len(),
                *self == *old(self),
                found is None ==> forall|j: int|
                    0 <= j < i ==> !(#[trigger] self.following@[j]).1.0.same_target(target),
                found matches Some(f) ==> self.first_match_at(target, f as int),
        {
            if found.is_none() && self.following[i].1.0.is_same_target(&target) {
                found = Some(i);
            }
        }
        proof {
            if found is None {
                assert forall|i: int| !old(self).first_match_at(target, i) by {}
            }
        }
        if let Some(f) = found {
            if self.following[f].1.1 == via {
                let id = self.following[f].0;
                return Err(FollowError::AlreadyFollowing(id));
            }
            // same target, other method: the new subscription replaces it
            self.following.remove(f);
            proof {
                assert(old(self).first_match_at(target, f as int));
            }
        }
        let outcome = match &target {
            Follow::Pattern { title, lecturer } => {
                let t = title.clone();
                let l = match lecturer {
                    Some(l) => Some(l.clone()),
                    None => None,
                };
                FollowOutcome::Pattern { title: t, lecturer: l }
            },
            Follow::TweetId(id) => {
                let id = *id;
                match find_tweet(tweeted, id) {
                    Some((dept, item)) => FollowOutcome::Tweet { status_id: id, dept, item },
                    None => {
                        return Err(FollowError::TweetDoesNotExist(id));
                    },
                }
            },
        };
        let id = self.next_id;
        self.following.push((id, FollowEntry(target, via)));
        self.next_id = id + 1;
        Ok((id, outcome))
    }
}

/// The settings the daemon is configured with.
#[derive(Debug)]
pub struct Settings {
    /// The calendar patterns of the crawl schedule.
    pub schedule: Vec<UnitSchedule>,
    /// User ids allowed to run administrative commands.
    pub admins: Vec<u64>,
    pub consumer_key: String,
    pub consumer_secret: String,
    pub access_key: String,
    pub access_secret: String,
    /// The user agent the crawler presents.
    pub user_agent: String,
    /// The bulletin pages to crawl.
    pub urls: Vec<String>,
}

/// The user agent used when the settings give none.
pub fn default_user_agent() -> (r: String)
    ensures
        r@ == "kyuko-bot/0.1.0"@,
{
    String::from_str("kyuko-bot/0.1.0")
}

/// A notice equal to `k` occurs in `list`.
pub open spec fn kyuko_in(k: Kyuko, list: Seq<Kyuko>) -> bool {
    exists|j: int| 0 <= j < list.len() && kyuko_eq(k, list[j])
}

/// The posted entries still on the bulletin.
pub open spec fn kept_pred(fresh: Seq<Kyuko>) -> spec_fn((u64, Kyuko)) -> bool {
    |p: (u64, Kyuko)| kyuko_in(p.1, fresh)
}

/// The posted entries withdrawn from the bulletin.
pub open spec fn withdrawn_pred(fresh: Seq<Kyuko>) -> spec_fn((u64, Kyuko)) -> bool {
    |p: (u64, Kyuko)| !kyuko_in(p.1, fresh)
}

/// Splits the posted notices of one department into those still on the
/// bulletin and those withdrawn from it: an entry is kept exactly when an
/// equal notice is among the freshly scraped ones.
pub fn remove_withdrawn(old_entries: Vec<(u64, Kyuko)>, fresh: &Vec<Kyuko>) -> (r: (
    Vec<(u64, Kyuko)>,
    Vec<(u64, Kyuko)>,
))
    ensures
        r.0@ == old_entries@.filter(kept_pred(fresh@)),
        r.1@ == old_entries@.filter(withdrawn_pred(fresh@)),
{
    let ghost keep = kept_pred(fresh@);
    let ghost drop_p = withdrawn_pred(fresh@);
    let ghost orig = old_entries@;
    let mut rest = old_entries;
    let mut kept: Vec<(u64, Kyuko)> = Vec::new();
    let mut withdrawn: Vec<(u64, Kyuko)> = Vec::new();
    proof {
        reveal(Seq::filter);
        assert(orig.take(0) =~= Seq::<(u64, Kyuko)>::empty());
        assert(kept@ =~= orig.take(0).filter(keep));
        assert(withdrawn@ =~= orig.take(0).filter(drop_p));
        assert(rest@ =~= orig.skip(0));
    }
    while rest.len() > 0
        invariant
            rest@.len() <= orig.len(),
            rest@ == orig.skip(orig.len() - rest@.len()),
            kept@ == orig.take(orig.len() - rest@.len()).filter(keep),
            withdrawn@ == orig.take(orig.len() - rest@.len()).filter(drop_p),
            keep == kept_pred(fresh@),
            drop_p == withdrawn_pred(fresh@),
        decreases rest@.len(),
    {
        let ghost k0 = orig.len() - rest@.len();
        let (id, k) = rest.remove(0);
        proof {
            assert(orig.skip(k0 as int)[0] == orig[k0 as int]);
            assert((id, k) == orig[k0 as int]);
            assert(rest@ =~= orig.skip(k0 + 1));
        }
        let nf = fresh.len();
        let mut is_kept = false;
        for j in 0..nf
            invariant
                nf == fresh@.len(),
                is_kept ==> exists|q: int| 0 <= q < fresh@.len() && kyuko_eq(k, fresh@[q]),
                !is_kept ==> forall|q: int| 0 <= q < j ==> !kyuko_eq(k, fresh@[q]),
        {
            if !is_kept && k.same_as(&fresh[j]) {
                is_kept = true;
            }
        }
        proof {
            reveal(Seq::filter);
            assert(orig.take(k0 + 1).drop_last() =~= orig.take(k0 as int));
            assert(orig.take(k0 + 1).last() == orig[k0 as int]);
            assert(is_kept == keep(orig[k0 as int]));
            assert(!is_kept == drop_p(orig[k0 as int]));
        }
        if is_kept {
            kept.push((id, k));
        } else {
            withdrawn.push((id, k));
        }
    }
    proof {
        assert(orig.take(orig.len() as int) =~= orig);
    }
    (kept, withdrawn)
}

/// A scraped notice not yet among the posted entries.
pub open spec fn unposted_pred(posted: Seq<(u64, Kyuko)>) -> spec_fn(Kyuko) -> bool {
    |k: Kyuko| !(exists|j: int| 0 <= j < posted.len() && kyuko_eq(k, posted[j].1))
}

/// Keeps only the scraped notices that are not already posted: the ones
/// still to be announced.
pub fn fresh_only(scraped: Vec<Kyuko>, posted: &Vec<(u64, Kyuko)>) -> (r: Vec<Kyuko>)
    ensures
        r@ == scraped@.filter(unposted_pred(posted@)),
{
    let ghost fresh_pred = unposted_pred(posted@);
    let ghost orig = scraped@;
    let mut rest = scraped;
    let mut out: Vec<Kyuko> = Vec::new();
    proof {
        reveal(Seq::filter);
        assert(orig.take(0) =~= Seq::<Kyuko>::empty());
        assert(out@ =~= orig.take(0).filter(fresh_pred));
        assert(rest@ =~= orig.skip(0));
    }
    while rest.len() > 0
        invariant
            rest@.len() <= orig.len(),
            rest@ == orig.skip(orig.len() - rest@.len()),
            out@ == orig.take(orig.len() - rest@.len()).filter(fresh_pred),
            fresh_pred == unposted_pred(posted@),
        decreases rest@.len(),
    {
        let ghost k0 = orig.len() - rest@.len();
        let k = rest.remove(0);
        proof {
            assert(orig.skip(k0 as int)[0] == orig[k0 as int]);
            assert(k == orig[k0 as int]);
            assert(rest@ =~= orig.skip(k0 + 1));
        }
        let np = posted.len();
        let mut seen = false;
        for j in 0..np
            invariant
                np == posted@.len(),
                seen ==> exists|q: int| 0 <= q < posted@.len() && kyuko_eq(k, posted@[q].1),
                !seen ==> forall|q: int| 0 <= q < j ==> !kyuko_eq(k, posted@[q].1),
        {
            if !seen && k.same_as(&posted[j].1) {
                seen = true;
            }
        }
        proof {
            reveal(Seq::filter);
            assert(orig.take(k0 + 1).drop_last() =~= orig.take(k0 as int));
            assert(orig.take(k0 + 1).last() == orig[k0 as int]);
            assert(!seen == fresh_pred(orig[k0 as int]));
        }
        if !seen {
            out.push(k);
        }
    }
    proof {
        assert(orig.take(orig.len() as int) =~= orig);
    }
    out
}

} // verus!

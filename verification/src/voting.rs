//! Curator applications: a key pays to apply for a whitelisting, the curator
//! refuses it or the application is executed and the cost paid back.
use vstd::prelude::*;
use crate::events::Event;
use crate::balances::Balances;
use crate::errors::Error;
use crate::params::{is_utf8, utf8_valid};

verus! {

/// Where an application stands.
#[derive(Clone, Copy, Debug, PartialEq, Eq, Structural)]
pub enum ApplicationStatus {
    Pending,
    Accepted,
    Refused,
}

impl Default for ApplicationStatus {
    fn default() -> (r: ApplicationStatus)
        ensures
            r == ApplicationStatus::Pending,
    {
        ApplicationStatus::Pending
    }
}

/// An application of `user_id`, paid for by `paying_for`.
#[derive(Clone, Debug)]
pub struct CuratorApplication {
    pub id: u64,
    pub user_id: u64,
    pub paying_for: u64,
    pub data: Vec<u8>,
    pub status: ApplicationStatus,
    pub application_cost: u64,
}

/// The curator applications, each under its own id.
pub struct Curation {
    pub applications: Vec<CuratorApplication>,
}

/// One more than the largest id in `apps`, zero when there is none.
pub open spec fn next_id(apps: Seq<CuratorApplication>) -> int
    decreases apps.len(),
{
    if apps.len() == 0 {
        0
    } else {
        let rest = next_id(apps.drop_last());
        if rest > apps.last().id + 1 { rest } else { apps.last().id + 1 }
    }
}

/// The position of the application with id `id`, or -1.
pub open spec fn app_pos(apps: Seq<CuratorApplication>, id: u64) -> int
    decreases apps.len(),
{
    if apps.len() == 0 {
        -1
    } else if apps.last().id == id {
        apps.len() - 1
    } else {
        app_pos(apps.drop_last(), id)
    }
}

/// Whether some application is of `user_id`.
pub open spec fn has_user(apps: Seq<CuratorApplication>, user_id: u64) -> bool {
    exists|i: int| 0 <= i < apps.len() && #[trigger] apps[i].user_id == user_id
}

/// The application `a` with its status set to `status`.
pub open spec fn with_status(a: CuratorApplication, status: ApplicationStatus) -> CuratorApplication {
    CuratorApplication { status: status, ..a }
}

/// Whether the largest id leaves room for one more.
pub open spec fn ids_below_max(apps: Seq<CuratorApplication>) -> bool {
    forall|i: int| 0 <= i < apps.len() ==> #[trigger] apps[i].id < u64::MAX
}

proof fn lemma_next_id(apps: Seq<CuratorApplication>)
    ensures
        0 <= next_id(apps),
        forall|i: int| 0 <= i < apps.len() ==> #[trigger] apps[i].id < next_id(apps),
        ids_below_max(apps) ==> next_id(apps) <= u64::MAX,
    decreases apps.len(),
{
    if apps.len() > 0 {
        lemma_next_id(apps.drop_last());
        assert forall|i: int| 0 <= i < apps.len() implies #[trigger] apps[i].id < next_id(apps) by {
            if i < apps.len() - 1 {
                assert(apps.drop_last()[i] == apps[i]);
            }
        }
        if ids_below_max(apps) {
            assert forall|i: int| 0 <= i < apps.drop_last().len() implies #[trigger] apps.drop_last()[i].id < u64::MAX by {
                assert(apps.drop_last()[i] == apps[i]);
            }
            assert(apps[apps.len() - 1].id < u64::MAX);
        }
    }
}

proof fn lemma_app_pos(apps: Seq<CuratorApplication>, id: u64)
    ensures
        -1 <= app_pos(apps, id) < apps.len(),
        app_pos(apps, id) >= 0 ==> apps[app_pos(apps, id)].id == id,
        app_pos(apps, id) < 0 ==> forall|i: int| 0 <= i < apps.len() ==> #[trigger] apps[i].id != id,
    decreases apps.len(),
{
    if apps.len() > 0 && apps.last().id != id {
        lemma_app_pos(apps.drop_last(), id);
        let p = app_pos(apps.drop_last(), id);
        if p >= 0 {
            assert(apps.drop_last()[p] == apps[p]);
        } else {
            assert forall|i: int| 0 <= i < apps.len() implies #[trigger] apps[i].id != id by {
                if i < apps.len() - 1 {
                    assert(apps.drop_last()[i] == apps[i]);
                }
            }
        }
    }
}

impl Curation {
    /// Whether no two applications share an id.
    pub open spec fn wf(&self) -> bool {
        forall|i: int, j: int| 0 <= i < j < self.applications@.len()
            ==> #[trigger] self.applications@[i].id != #[trigger] self.applications@[j].id
    }

    /// No application yet.
    pub fn new() -> (r: Curation)
        ensures
            r.wf(),
            r.applications@.len() == 0,
    {
        Curation { applications: Vec::new() }
    }

    /// The id the next application gets: one more than the largest id so far,
    /// zero when there is none.
    pub fn get_next_application_id(&self) -> (r: u64)
        requires
            ids_below_max(self.applications@),
        ensures
            r == next_id(self.applications@),
    {
        let mut best: u64 = 0;
        let mut i: usize = 0;
        while i < self.applications.len()
            invariant
                i <= self.applications@.len(),
                ids_below_max(self.applications@),
                best == next_id(self.applications@.take(i as int)),
            decreases self.applications@.len() - i,
        {
            proof {
                assert(self.applications@.take(i + 1).drop_last() =~= self.applications@.take(i as int));
                assert(self.applications@[i as int].id < u64::MAX);
            }
            let cand = self.applications[i].id + 1;
            if cand > best {
                best = cand;
            }
            i = i + 1;
        }
        proof {
            assert(self.applications@.take(self.applications@.len() as int) =~= self.applications@);
        }
        best
    }

    /// Files an application of `application_key` paid by `key`: `key` must
    /// hold the application cost `cost`, which is burnt; the application is
    /// pending under the next id.
    pub fn add_application(&mut self, balances: &mut Balances, events: &mut Vec<Event>, cost: u64, key: u64,
        application_key: u64, data: Vec<u8>) -> (r: Result<(), Error>)
        requires
            old(self).wf(),
            ids_below_max(old(self).applications@),
        ensures
            final(self).wf(),
            r is Err ==> *final(events) == *old(events),
            r is Ok ==> final(events)@ == old(events)@.push(Event::ApplicationCreated(next_id(old(self).applications@) as u64)),
            !old(balances).has_enough(key, cost) ==> r == Err::<(), Error>(Error::NotEnoughtBalnceToApply),
            old(balances).has_enough(key, cost) && !old(balances).can_pay(key, cost)
                ==> r == Err::<(), Error>(Error::BalanceNotRemoved),
            r is Err ==> *final(self) == *old(self) && *final(balances) == *old(balances),
            old(balances).has_enough(key, cost) && old(balances).can_pay(key, cost)
                ==> {
                &&& r is Ok
                &&& final(balances).free_map() == old(balances).free_map().insert(key,
                    (old(balances).balance_of(key) - cost) as u64)
                &&& final(balances).min_balance() == old(balances).min_balance()
                &&& final(self).applications@ == old(self).applications@.push(CuratorApplication {
                    id: next_id(old(self).applications@) as u64,
                    user_id: application_key,
                    paying_for: key,
                    data: data,
                    status: ApplicationStatus::Pending,
                    application_cost: cost,
                })
            },
    {
        if !balances.has_enough_balance(key, cost) {
            return Err(Error::NotEnoughtBalnceToApply);
        }
        let id = self.get_next_application_id();
        if !balances.remove_balance_from_account(key, cost) {
            return Err(Error::BalanceNotRemoved);
        }
        let ghost before = self.applications@;
        let app = CuratorApplication {
            id,
            user_id: application_key,
            paying_for: key,
            data,
            status: ApplicationStatus::Pending,
            application_cost: cost,
        };
        self.applications.push(app);
        events.push(Event::ApplicationCreated(id));
        proof {
            lemma_next_id(before);
            assert forall|i: int, j: int| 0 <= i < j < self.applications@.len()
                implies #[trigger] self.applications@[i].id != #[trigger] self.applications@[j].id by {
                if j == before.len() {
                    assert(before[i].id < next_id(before));
                } else {
                    assert(before[i].id != before[j].id);
                }
            }
        }
        Ok(())
    }

    /// Files an application after checking its data: not empty, at most 256
    /// bytes, and UTF-8; then as [`Curation::add_application`].
    pub fn do_add_dao_application(&mut self, balances: &mut Balances, events: &mut Vec<Event>, cost: u64, key: u64,
        application_key: u64, data: Vec<u8>) -> (r: Result<(), Error>)
        requires
            old(self).wf(),
            ids_below_max(old(self).applications@),
        ensures
            final(self).wf(),
            r is Err ==> *final(events) == *old(events),
            r is Ok ==> final(events)@ == old(events)@.push(Event::ApplicationCreated(next_id(old(self).applications@) as u64)),
            data@.len() == 0 ==> r == Err::<(), Error>(Error::ApplicationTooSmall),
            data@.len() > 256 ==> r == Err::<(), Error>(Error::ApplicationTooLarge),
            0 < data@.len() <= 256 && !utf8_valid(data@) ==> r == Err::<(), Error>(Error::InvalidApplication),
            r is Err ==> *final(self) == *old(self) && *final(balances) == *old(balances),
            0 < data@.len() <= 256 && utf8_valid(data@) ==> {
                &&& !old(balances).has_enough(key, cost) ==> r == Err::<(), Error>(Error::NotEnoughtBalnceToApply)
                &&& old(balances).has_enough(key, cost) && !old(balances).can_pay(key, cost)
                    ==> r == Err::<(), Error>(Error::BalanceNotRemoved)
                &&& old(balances).has_enough(key, cost) && old(balances).can_pay(key, cost) ==> {
                    &&& r is Ok
                    &&& final(balances).free_map() == old(balances).free_map().insert(key, (old(balances).balance_of(key) - cost) as u64)
                    &&& final(balances).min_balance() == old(balances).min_balance()
                    &&& final(self).applications@ == old(self).applications@.push(CuratorApplication {
                        id: next_id(old(self).applications@) as u64,
                        user_id: application_key,
                        paying_for: key,
                        data: data,
                        status: ApplicationStatus::Pending,
                        application_cost: cost,
                    })
                }
            },
    {
        if data.len() == 0 {
            return Err(Error::ApplicationTooSmall);
        }
        if data.len() > 256 {
            return Err(Error::ApplicationTooLarge);
        }
        if !is_utf8(data.as_slice()) {
            return Err(Error::InvalidApplication);
        }
        self.add_application(balances, events, cost, key, application_key, data)
    }

    /// `key`, which must be the curator `curator`, refuses the pending
    /// application `application_id`.
    pub fn do_refuse_dao_application(&mut self, curator: u64, key: u64, application_id: u64) -> (r: Result<(), Error>)
        requires
            old(self).wf(),
        ensures
            final(self).wf(),
            key != curator ==> r == Err::<(), Error>(Error::NotCurator),
            key == curator && app_pos(old(self).applications@, application_id) < 0
                ==> r == Err::<(), Error>(Error::ApplicationNotFound),
            key == curator && app_pos(old(self).applications@, application_id) >= 0
                && old(self).applications@[app_pos(old(self).applications@, application_id)].status != ApplicationStatus::Pending
                ==> r == Err::<(), Error>(Error::ApplicationNotPending),
            r is Err ==> *final(self) == *old(self),
            key == curator && app_pos(old(self).applications@, application_id) >= 0
                && old(self).applications@[app_pos(old(self).applications@, application_id)].status == ApplicationStatus::Pending
                ==> {
                let p = app_pos(old(self).applications@, application_id);
                &&& r is Ok
                &&& final(self).applications@ == old(self).applications@.update(p,
                    with_status(old(self).applications@[p], ApplicationStatus::Refused))
            },
    {
        if key != curator {
            return Err(Error::NotCurator);
        }
        proof {
            lemma_app_pos(self.applications@, application_id);
            assert(self.applications@.take(self.applications@.len() as int) =~= self.applications@);
        }
        let mut i: usize = self.applications.len();
        while i > 0
            invariant
                i <= self.applications@.len(),
                app_pos(self.applications@.take(i as int), application_id) == app_pos(self.applications@, application_id),
            ensures
                i <= self.applications@.len(),
                app_pos(self.applications@.take(i as int), application_id) == app_pos(self.applications@, application_id),
                i == 0 || self.applications@[i - 1].id == application_id,
            decreases i,
        {
            let ghost t = self.applications@.take(i as int);
            if self.applications[i - 1].id == application_id {
                break;
            }
            proof {
                assert(t.drop_last() =~= self.applications@.take(i - 1));
            }
            i = i - 1;
        }
        if i == 0 {
            return Err(Error::ApplicationNotFound);
        }
        let idx = i - 1;
        proof {
            let t = self.applications@.take(i as int);
            assert(t.last() == self.applications@[idx as int]);
            assert(app_pos(t, application_id) == idx);
        }
        if self.applications[idx].status != ApplicationStatus::Pending {
            return Err(Error::ApplicationNotPending);
        }
        let ghost before = *self;
        let mut app = self.applications.remove(idx);
        app.status = ApplicationStatus::Refused;
        self.applications.insert(idx, app);
        proof {
            assert(self.applications@ =~= before.applications@.update(idx as int, app));
            assert forall|a: int, b: int| 0 <= a < b < self.applications@.len()
                implies #[trigger] self.applications@[a].id != #[trigger] self.applications@[b].id by {
                assert(before.applications@[a].id != before.applications@[b].id);
            }
        }
        Ok(())
    }

    /// Accepts an application of `user_id` and pays its cost back to the
    /// key that paid it. Which one is accepted when `user_id` has several is
    /// left open.
    pub fn execute_application(&mut self, balances: &mut Balances, user_id: u64) -> (r: Result<(), Error>)
        requires
            old(self).wf(),
        ensures
            final(self).wf(),
            !has_user(old(self).applications@, user_id) ==> r == Err::<(), Error>(Error::ApplicationNotFound)
                && *final(self) == *old(self) && *final(balances) == *old(balances),
            has_user(old(self).applications@, user_id) ==> r is Ok && exists|i: int| {
                let a = old(self).applications@[i];
                &&& 0 <= i < old(self).applications@.len()
                &&& #[trigger] old(self).applications@[i].user_id == user_id
                &&& final(self).applications@ == old(self).applications@.update(i, with_status(a, ApplicationStatus::Accepted))
                &&& final(balances).free_map() == old(balances).free_map().insert(a.paying_for,
                    (if old(balances).balance_of(a.paying_for) + a.application_cost > u64::MAX { u64::MAX as int }
                     else { old(balances).balance_of(a.paying_for) + a.application_cost }) as u64)
                &&& final(balances).min_balance() == old(balances).min_balance()
            },
    {
        let mut i: usize = 0;
        while i < self.applications.len()
            invariant
                i <= self.applications@.len(),
                forall|q: int| 0 <= q < i ==> #[trigger] self.applications@[q].user_id != user_id,
            ensures
                i <= self.applications@.len(),
                forall|q: int| 0 <= q < i ==> #[trigger] self.applications@[q].user_id != user_id,
                i < self.applications@.len() ==> self.applications@[i as int].user_id == user_id,
            decreases self.applications@.len() - i,
        {
            if self.applications[i].user_id == user_id {
                break;
            }
            i = i + 1;
        }
        if i == self.applications.len() {
            return Err(Error::ApplicationNotFound);
        }
        let ghost before = *self;
        let payer = self.applications[i].paying_for;
        let cost = self.applications[i].application_cost;
        balances.add_balance_to_account(payer, cost);
        let mut app = self.applications.remove(i);
        app.status = ApplicationStatus::Accepted;
        self.applications.insert(i, app);
        proof {
            assert(self.applications@ =~= before.applications@.update(i as int, app));
            assert forall|a: int, b: int| 0 <= a < b < self.applications@.len()
                implies #[trigger] self.applications@[a].id != #[trigger] self.applications@[b].id by {
                assert(before.applications@[a].id != before.applications@[b].id);
            }
            assert(before.applications@[i as int].user_id == user_id);
        }
        Ok(())
    }
}

} // verus!

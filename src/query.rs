//! Scan-based queries over the appointments, and the aggregates built on
//! them: revenue of a service on a day, and the most booked service and
//! client.

use vstd::prelude::*;
use std::collections::HashMap;
use crate::model::{Appointment, AppointmentView, Client, Service, StoreError};
use crate::store::Store;
use crate::table::{is_listing, lemma_listing_len, views, Record};

verus! {

broadcast use vstd::std_specs::hash::group_hash_axioms;

/// What `str::to_lowercase` makes of a text.
pub uninterp spec fn lower_of(s: Seq<char>) -> Seq<char>;

/// Relies on `str::to_lowercase`: the lower-case form of `s`, which depends
/// on the characters of `s` alone.
#[verifier::external_body]
fn lowercase(s: &String) -> (r: String)
    ensures
        r@ == lower_of(s@),
{
    s.to_lowercase()
}

/// The records of `m` that satisfy `p`.
pub open spec fn restrict_to(m: Map<u64, AppointmentView>, p: spec_fn(AppointmentView) -> bool) -> Map<
    u64,
    AppointmentView,
> {
    Map::new(|k: u64| m.contains_key(k) && p(m[k]), |k: u64| m[k])
}

/// The identity that `a` refers to: its client's where `by_client`, else
/// its service's.
pub open spec fn reference_of(a: AppointmentView, by_client: bool) -> u64 {
    if by_client {
        a.client_id
    } else {
        a.service_id
    }
}

/// How many appointments of `m` refer to `x`, by client or by service.
pub open spec fn reference_count(m: Map<u64, AppointmentView>, by_client: bool, x: u64) -> nat {
    restrict_to(m, |a: AppointmentView| reference_of(a, by_client) == x).dom().len()
}

/// `x` is the most referred to identity of `m` (by client or by service):
/// referred to at least once, at least as often as any other, and more often
/// than any lower identity, so that the lowest wins a tie.
pub open spec fn is_most_referenced(m: Map<u64, AppointmentView>, by_client: bool, x: u64) -> bool {
    &&& reference_count(m, by_client, x) > 0
    &&& forall|y: u64| #[trigger] reference_count(m, by_client, y) <= reference_count(m, by_client, x)
    &&& forall|y: u64| y < x ==> #[trigger] reference_count(m, by_client, y) < reference_count(m, by_client, x)
}

/// At most one identity is the most referred to: ties go to the lowest.
pub proof fn lemma_most_referenced_unique(m: Map<u64, AppointmentView>, by_client: bool, x: u64, y: u64)
    requires
        is_most_referenced(m, by_client, x),
        is_most_referenced(m, by_client, y),
    ensures
        x == y,
{
    if x < y {
        assert(reference_count(m, by_client, x) < reference_count(m, by_client, y));
        assert(reference_count(m, by_client, y) <= reference_count(m, by_client, x));
    } else if y < x {
        assert(reference_count(m, by_client, y) < reference_count(m, by_client, x));
        assert(reference_count(m, by_client, x) <= reference_count(m, by_client, y));
    }
}

/// How many appointments of `m` book the service `service_id` on `date`.
pub open spec fn booking_count(m: Map<u64, AppointmentView>, service_id: u64, date: Seq<char>) -> nat {
    restrict_to(m, |a: AppointmentView| a.service_id == service_id && a.date == date).dom().len()
}

/// How many appointments of the sequence `s` refer to `x`.
pub open spec fn count_in(s: Seq<AppointmentView>, by_client: bool, x: u64) -> nat
    decreases s.len(),
{
    if s.len() == 0 {
        0
    } else {
        count_in(s.drop_last(), by_client, x) + if reference_of(s.last(), by_client) == x {
            1nat
        } else {
            0nat
        }
    }
}

proof fn lemma_count_in_len(s: Seq<AppointmentView>, by_client: bool, x: u64)
    ensures
        count_in(s, by_client, x) <= s.len(),
    decreases s.len(),
{
    if s.len() > 0 {
        lemma_count_in_len(s.drop_last(), by_client, x);
    }
}

/// Counting the references in a listing of `m` gives the count over `m`.
proof fn lemma_count_in(m: Map<u64, AppointmentView>, s: Seq<AppointmentView>, by_client: bool, x: u64)
    requires
        is_listing::<Appointment>(m, s),
        m.dom().finite(),
    ensures
        count_in(s, by_client, x) == reference_count(m, by_client, x),
    decreases s.len(),
{
    let sub = restrict_to(m, |a: AppointmentView| reference_of(a, by_client) == x);
    assert(sub.dom() =~= m.dom().intersect(Set::new(|k: u64| reference_of(m[k], by_client) == x)));
    if s.len() == 0 {
        assert forall|k: u64| !sub.dom().contains(k) by {
            if sub.dom().contains(k) {
                assert(m.contains_key(k));
            }
        }
        assert(sub.dom() =~= Set::<u64>::empty());
    } else {
        let n = s.len() - 1;
        let last = s[n];
        let k = last.id;
        assert(m.contains_key(Appointment::key(s[n])));
        let m2 = m.remove(k);
        let s2 = s.drop_last();
        assert forall|i: int| 0 <= i < s2.len() implies m2.contains_key(#[trigger] Appointment::key(s2[i]))
            && m2[Appointment::key(s2[i])] == s2[i] by {
            assert(s2[i] == s[i]);
            assert(m.contains_key(Appointment::key(s[i])));
            assert(Appointment::key(s[i]) < Appointment::key(s[n]));
        }
        assert forall|kk: u64| #[trigger] m2.contains_key(kk) implies exists|i: int| 0 <= i < s2.len()
            && Appointment::key(s2[i]) == kk by {
            assert(m.contains_key(kk));
            let i = choose|i: int| 0 <= i < s.len() && Appointment::key(s[i]) == kk;
            assert(i != n);
            assert(s2[i] == s[i]);
        }
        assert forall|i: int, j: int| 0 <= i < j < s2.len() implies Appointment::key(s2[i]) < Appointment::key(
            s2[j],
        ) by {
            assert(s2[i] == s[i]);
            assert(s2[j] == s[j]);
        }
        lemma_count_in(m2, s2, by_client, x);
        let sub2 = restrict_to(m2, |a: AppointmentView| reference_of(a, by_client) == x);
        if reference_of(last, by_client) == x {
            assert(sub.dom().contains(k));
            assert(sub2.dom() =~= sub.dom().remove(k));
        } else {
            assert(sub2.dom() =~= sub.dom());
        }
    }
}

/// A condition on an appointment that a scan selects by.
enum Criterion {
    ClientRef(u64),
    ServiceRef(u64),
    Date(String),
    FoldedStatus(String),
    ServiceOnDate(u64, String),
}

spec fn meets(a: AppointmentView, c: &Criterion) -> bool {
    match c {
        Criterion::ClientRef(id) => a.client_id == *id,
        Criterion::ServiceRef(id) => a.service_id == *id,
        Criterion::Date(d) => a.date == d@,
        Criterion::FoldedStatus(s) => lower_of(a.status) == s@,
        Criterion::ServiceOnDate(id, d) => a.service_id == *id && a.date == d@,
    }
}

/// Whether an appointment whose status folds to `folded_status` matches a
/// status query that folds to `folded_query`: the folded texts are equal.
pub fn folded_status_matches(folded_status: &String, folded_query: &String) -> (r: bool)
    ensures
        r == (folded_status@ == folded_query@),
{
    *folded_status == *folded_query
}

fn check(a: &Appointment, c: &Criterion) -> (r: bool)
    ensures
        r == meets(a@, c),
{
    match c {
        Criterion::ClientRef(id) => a.client_id == *id,
        Criterion::ServiceRef(id) => a.service_id == *id,
        Criterion::Date(d) => a.date == *d,
        Criterion::FoldedStatus(s) => folded_status_matches(&lowercase(&a.status), s),
        Criterion::ServiceOnDate(id, d) => a.service_id == *id && a.date == *d,
    }
}

impl Store {
    fn select(&self, c: &Criterion) -> (r: Vec<Appointment>)
        requires
            self.wf(),
        ensures
            is_listing::<Appointment>(
                restrict_to(self.appointments.records(), |a: AppointmentView| meets(a, c)),
                views(r@),
            ),
            r@.len() == restrict_to(self.appointments.records(), |a: AppointmentView| meets(a, c)).dom().len(),
    {
        let all = self.appointments.list();
        let ghost m = self.appointments.records();
        let ghost sub = restrict_to(m, |a: AppointmentView| meets(a, c));
        let ghost s = views(all@);
        let mut out: Vec<Appointment> = Vec::new();
        let mut i: usize = 0;
        while i < all.len()
            invariant
                0 <= i <= all@.len(),
                m == self.appointments.records(),
                sub == restrict_to(m, |a: AppointmentView| meets(a, c)),
                s == views(all@),
                is_listing::<Appointment>(m, s),
                forall|p: int, q: int| 0 <= p < q < out@.len() ==> out@[p].id < out@[q].id,
                forall|p: int| 0 <= p < out@.len() ==> #[trigger] m.contains_key(out@[p].id) && m[out@[p].id]
                    == out@[p]@ && meets(out@[p]@, c),
                forall|p: int, q: int| 0 <= p < out@.len() && i <= q < all@.len() ==> out@[p].id < all@[q].id,
                forall|q: int| 0 <= q < i && #[trigger] meets(all@[q]@, c) ==> exists|p: int| 0 <= p < out@.len()
                    && out@[p].id == all@[q].id,
            decreases all@.len() - i,
        {
            proof {
                assert(s[i as int] == all@[i as int]@);
                assert(m.contains_key(Appointment::key(s[i as int])));
                assert forall|q: int| i < q < all@.len() implies all@[i as int].id < all@[q].id by {
                    assert(s[q] == all@[q]@);
                }
            }
            if check(&all[i], c) {
                let ghost before = out@;
                let a = all[i].duplicate();
                out.push(a);
                proof {
                    assert forall|q: int| 0 <= q < i + 1 && #[trigger] meets(all@[q]@, c) implies exists|p: int|
                        0 <= p < out@.len() && out@[p].id == all@[q].id by {
                        if q == i {
                            assert(out@[before.len() as int].id == all@[q].id);
                        } else {
                            let p = choose|p: int| 0 <= p < before.len() && before[p].id == all@[q].id;
                            assert(out@[p].id == all@[q].id);
                        }
                    }
                }
            }
            i += 1;
        }
        proof {
            let o = views(out@);
            assert forall|k: u64| #[trigger] sub.contains_key(k) implies exists|p: int| 0 <= p < o.len() && o[p].id == k by {
                assert(m.contains_key(k));
                let q = choose|q: int| 0 <= q < s.len() && s[q].id == k;
                assert(s[q] == all@[q]@);
                assert(meets(all@[q]@, c));
                let p = choose|p: int| 0 <= p < out@.len() && out@[p].id == all@[q].id;
                assert(o[p] == out@[p]@);
            }
            assert forall|p: int| 0 <= p < o.len() implies sub.contains_key(#[trigger] o[p].id) && sub[o[p].id] == o[p] by {
                assert(o[p] == out@[p]@);
                assert(m.contains_key(Appointment::key(out@[p]@)));
            }
            assert forall|p: int, q: int| 0 <= p < q < o.len() implies o[p].id < o[q].id by {
                assert(o[p] == out@[p]@);
                assert(o[q] == out@[q]@);
            }
            assert(sub.dom() =~= m.dom().intersect(Set::new(|k: u64| meets(m[k], c))));
            lemma_listing_len::<Appointment>(sub, o);
        }
        out
    }

    /// Every appointment for the client `client_id`, by ascending identity.
    pub fn get_all_appointments_by_client_id(&self, client_id: u64) -> (r: Vec<Appointment>)
        requires
            self.wf(),
        ensures
            is_listing::<Appointment>(
                restrict_to(self.appointments.records(), |a: AppointmentView| a.client_id == client_id),
                views(r@),
            ),
    {
        let c = Criterion::ClientRef(client_id);
        let r = self.select(&c);
        proof {
            let m = self.appointments.records();
            assert(restrict_to(m, |a: AppointmentView| meets(a, &c)) =~= restrict_to(
                m,
                |a: AppointmentView| a.client_id == client_id,
            ));
        }
        r
    }

    /// Every appointment of the service `service_id`, by ascending identity.
    pub fn get_all_appointments_by_service_id(&self, service_id: u64) -> (r: Vec<Appointment>)
        requires
            self.wf(),
        ensures
            is_listing::<Appointment>(
                restrict_to(self.appointments.records(), |a: AppointmentView| a.service_id == service_id),
                views(r@),
            ),
    {
        let c = Criterion::ServiceRef(service_id);
        let r = self.select(&c);
        proof {
            let m = self.appointments.records();
            assert(restrict_to(m, |a: AppointmentView| meets(a, &c)) =~= restrict_to(
                m,
                |a: AppointmentView| a.service_id == service_id,
            ));
        }
        r
    }

    /// Every appointment on exactly the day `date`, by ascending identity.
    pub fn get_all_appointments_by_date(&self, date: String) -> (r: Vec<Appointment>)
        requires
            self.wf(),
        ensures
            is_listing::<Appointment>(
                restrict_to(self.appointments.records(), |a: AppointmentView| a.date == date@),
                views(r@),
            ),
    {
        let ghost d = date@;
        let c = Criterion::Date(date);
        let r = self.select(&c);
        proof {
            let m = self.appointments.records();
            assert(restrict_to(m, |a: AppointmentView| meets(a, &c)) =~= restrict_to(
                m,
                |a: AppointmentView| a.date == d,
            ));
        }
        r
    }

    /// Every appointment whose status equals `status` but for case, by
    /// ascending identity.
    pub fn get_all_appointments_by_status(&self, status: String) -> (r: Vec<Appointment>)
        requires
            self.wf(),
        ensures
            is_listing::<Appointment>(
                restrict_to(
                    self.appointments.records(),
                    |a: AppointmentView| lower_of(a.status) == lower_of(status@),
                ),
                views(r@),
            ),
    {
        let c = Criterion::FoldedStatus(lowercase(&status));
        let r = self.select(&c);
        proof {
            let m = self.appointments.records();
            assert(restrict_to(m, |a: AppointmentView| meets(a, &c)) =~= restrict_to(
                m,
                |a: AppointmentView| lower_of(a.status) == lower_of(status@),
            ));
        }
        r
    }

    /// The revenue of the service `service_id` on `date`: its price for
    /// each appointment that books it on that day, and 0 where none does.
    /// Fails with `ReferentialInconsistency` where there are such
    /// appointments but the service is gone, and with `AmountOverflow` where
    /// the sum does not fit in 64 bits.
    pub fn get_total_revenue_by_service_id_and_date(&self, service_id: u64, date: String) -> (r: Result<
        u64,
        StoreError,
    >)
        requires
            self.wf(),
        ensures
            ({
                let n = booking_count(self.appointments.records(), service_id, date@);
                let svcs = self.services.records();
                &&& n == 0 ==> r == Ok::<u64, StoreError>(0)
                &&& n > 0 && !svcs.contains_key(service_id) ==> r == Err::<u64, StoreError>(
                    StoreError::ReferentialInconsistency,
                )
                &&& n > 0 && svcs.contains_key(service_id) && n * svcs[service_id].price <= u64::MAX
                    ==> r == Ok::<u64, StoreError>((n * svcs[service_id].price) as u64)
                &&& n > 0 && svcs.contains_key(service_id) && n * svcs[service_id].price > u64::MAX
                    ==> r == Err::<u64, StoreError>(StoreError::AmountOverflow)
            }),
    {
        let ghost d = date@;
        let c = Criterion::ServiceOnDate(service_id, date);
        let matches = self.select(&c);
        proof {
            let m = self.appointments.records();
            assert(restrict_to(m, |a: AppointmentView| meets(a, &c)) =~= restrict_to(
                m,
                |a: AppointmentView| a.service_id == service_id && a.date == d,
            ));
        }
        let n = matches.len() as u64;
        if n == 0 {
            return Ok(0);
        }
        let service = match self.services.get(service_id) {
            Some(s) => s,
            None => return Err(StoreError::ReferentialInconsistency),
        };
        match n.checked_mul(service.price) {
            Some(total) => Ok(total),
            None => Err(StoreError::AmountOverflow),
        }
    }

    fn most_referenced(&self, by_client: bool) -> (r: Option<u64>)
        requires
            self.wf(),
        ensures
            r is None <==> self.appointments.records().dom().len() == 0,
            r matches Some(x) ==> is_most_referenced(self.appointments.records(), by_client, x),
            r is None ==> forall|y: u64| #[trigger] reference_count(self.appointments.records(), by_client, y) == 0,
    {
        let all = self.appointments.list();
        let ghost m = self.appointments.records();
        let ghost s = views(all@);
        let mut counts: HashMap<u64, u64> = HashMap::new();
        let mut i: usize = 0;
        while i < all.len()
            invariant
                0 <= i <= all@.len(),
                s == views(all@),
                forall|x: u64| #[trigger] counts@.contains_key(x) ==> counts@[x] == count_in(
                    s.subrange(0, i as int),
                    by_client,
                    x,
                ),
                forall|x: u64| !counts@.contains_key(x) ==> #[trigger] count_in(s.subrange(0, i as int), by_client, x) == 0,
            decreases all@.len() - i,
        {
            let x = if by_client {
                all[i].client_id
            } else {
                all[i].service_id
            };
            let c: u64 = match counts.get(&x) {
                Some(v) => *v,
                None => 0,
            };
            proof {
                lemma_count_in_len(s.subrange(0, i as int), by_client, x);
                assert(s[i as int] == all@[i as int]@);
                assert forall|y: u64| #[trigger] count_in(s.subrange(0, i + 1), by_client, y) == count_in(
                    s.subrange(0, i as int),
                    by_client,
                    y,
                ) + if y == x { 1nat } else { 0nat } by {
                    assert(s.subrange(0, i + 1).drop_last() =~= s.subrange(0, i as int));
                }
            }
            counts.insert(x, c + 1);
            i += 1;
        }
        proof {
            assert(s.subrange(0, s.len() as int) =~= s);
            assert forall|y: u64| #[trigger] count_in(s, by_client, y) == reference_count(m, by_client, y) by {
                lemma_count_in(m, s, by_client, y);
            }
        }
        let mut best_id: u64 = 0;
        let mut best: u64 = 0;
        let mut i: usize = 0;
        while i < all.len()
            invariant
                0 <= i <= all@.len(),
                self.wf(),
                m == self.appointments.records(),
                s == views(all@),
                is_listing::<Appointment>(m, s),
                m.dom().finite(),
                forall|x: u64| #[trigger] counts@.contains_key(x) ==> counts@[x] == count_in(s, by_client, x),
                forall|x: u64| !counts@.contains_key(x) ==> #[trigger] count_in(s, by_client, x) == 0,
                forall|y: u64| #[trigger] count_in(s, by_client, y) == reference_count(m, by_client, y),
                i > 0 ==> best > 0 && best == reference_count(m, by_client, best_id),
                i == 0 ==> best == 0,
                forall|q: int| 0 <= q < i ==> #[trigger] reference_count(m, by_client, reference_of(all@[q]@, by_client))
                    < best || (reference_count(m, by_client, reference_of(all@[q]@, by_client)) == best
                    && best_id <= reference_of(all@[q]@, by_client)),
            decreases all@.len() - i,
        {
            let x = if by_client {
                all[i].client_id
            } else {
                all[i].service_id
            };
            proof {
                assert(s[i as int] == all@[i as int]@);
                assert(m.contains_key(Appointment::key(s[i as int])));
                let sub = restrict_to(m, |a: AppointmentView| reference_of(a, by_client) == x);
                assert(sub.contains_key(s[i as int].id));
                assert(sub.dom() =~= m.dom().intersect(Set::new(|k: u64| reference_of(m[k], by_client) == x)));
                assert(sub.dom().remove(s[i as int].id).len() + 1 == sub.dom().len());
                assert(reference_count(m, by_client, x) > 0);
                assert(count_in(s, by_client, x) > 0);
            }
            let c: u64 = match counts.get(&x) {
                Some(v) => *v,
                None => 0,
            };
            if c > best || (c == best && x < best_id) {
                best = c;
                best_id = x;
            }
            i += 1;
        }
        if i == 0 {
            proof {
                assert(m.dom().len() == 0);
                assert forall|y: u64| #[trigger] reference_count(m, by_client, y) == 0 by {
                    let sub = restrict_to(m, |a: AppointmentView| reference_of(a, by_client) == y);
                    assert forall|k: u64| !sub.dom().contains(k) by {
                        if sub.dom().contains(k) {
                            assert(m.contains_key(k));
                        }
                    }
                    assert(sub.dom() =~= Set::<u64>::empty());
                }
            }
            return None;
        }
        proof {
            assert forall|y: u64| #[trigger] reference_count(m, by_client, y) > 0 implies exists|q: int|
                0 <= q < all@.len() && reference_of(all@[q]@, by_client) == y by {
                let sub = restrict_to(m, |a: AppointmentView| reference_of(a, by_client) == y);
                if !(exists|q: int| 0 <= q < all@.len() && reference_of(all@[q]@, by_client) == y) {
                    assert forall|k: u64| !sub.dom().contains(k) by {
                        if sub.dom().contains(k) {
                            assert(m.contains_key(k));
                            let q = choose|q: int| 0 <= q < s.len() && Appointment::key(s[q]) == k;
                            assert(s[q] == all@[q]@);
                        }
                    }
                    assert(sub.dom() =~= Set::<u64>::empty());
                }
            }
            assert forall|y: u64| #[trigger] reference_count(m, by_client, y) <= reference_count(m, by_client, best_id) by {
                if reference_count(m, by_client, y) > 0 {
                    let q = choose|q: int| 0 <= q < all@.len() && reference_of(all@[q]@, by_client) == y;
                }
            }
            assert forall|y: u64| y < best_id implies #[trigger] reference_count(m, by_client, y) < reference_count(m, by_client, best_id) by {
                if reference_count(m, by_client, y) > 0 {
                    let q = choose|q: int| 0 <= q < all@.len() && reference_of(all@[q]@, by_client) == y;
                }
            }
        }
        Some(best_id)
    }

    /// The service that the most appointments refer to, the lowest identity
    /// winning a tie; `Ok(None)` where there are no appointments, and
    /// `NotFoundError` where the winning service no longer exists.
    pub fn get_most_popular_service(&self) -> (r: Result<Option<Service>, StoreError>)
        requires
            self.wf(),
        ensures
            self.appointments.records().dom().len() == 0 <==> r == Ok::<Option<Service>, StoreError>(None),
            self.appointments.records().dom().len() > 0 ==> exists|x: u64|
                is_most_referenced(self.appointments.records(), false, x),
            forall|x: u64| #[trigger]
                is_most_referenced(self.appointments.records(), false, x) ==> if self.services.records().contains_key(x) {
                    r matches Ok(Some(v)) && v@ == self.services.records()[x]
                } else {
                    r == Err::<Option<Service>, StoreError>(StoreError::NotFoundError)
                },
    {
        match self.most_referenced(false) {
            None => {
                proof {
                    assert forall|x: u64| !is_most_referenced(self.appointments.records(), false, x) by {
                        assert(reference_count(self.appointments.records(), false, x) == 0);
                    }
                }
                Ok(None)
            },
            Some(w) => {
                proof {
                    assert forall|x: u64| #[trigger] is_most_referenced(self.appointments.records(), false, x) implies x == w by {
                        lemma_most_referenced_unique(self.appointments.records(), false, x, w);
                    }
                }
                match self.services.get(w) {
                    Some(v) => Ok(Some(v)),
                    None => Err(StoreError::NotFoundError),
                }
            },
        }
    }

    /// The client that the most appointments refer to, the lowest identity
    /// winning a tie; `Ok(None)` where there are no appointments, and
    /// `NotFoundError` where the winning client no longer exists.
    pub fn get_most_popular_client(&self) -> (r: Result<Option<Client>, StoreError>)
        requires
            self.wf(),
        ensures
            self.appointments.records().dom().len() == 0 <==> r == Ok::<Option<Client>, StoreError>(None),
            self.appointments.records().dom().len() > 0 ==> exists|x: u64|
                is_most_referenced(self.appointments.records(), true, x),
            forall|x: u64| #[trigger]
                is_most_referenced(self.appointments.records(), true, x) ==> if self.clients.records().contains_key(x) {
                    r matches Ok(Some(v)) && v@ == self.clients.records()[x]
                } else {
                    r == Err::<Option<Client>, StoreError>(StoreError::NotFoundError)
                },
    {
        match self.most_referenced(true) {
            None => {
                proof {
                    assert forall|x: u64| !is_most_referenced(self.appointments.records(), true, x) by {
                        assert(reference_count(self.appointments.records(), true, x) == 0);
                    }
                }
                Ok(None)
            },
            Some(w) => {
                proof {
                    assert forall|x: u64| #[trigger] is_most_referenced(self.appointments.records(), true, x) implies x == w by {
                        lemma_most_referenced_unique(self.appointments.records(), true, x, w);
                    }
                }
                match self.clients.get(w) {
                    Some(v) => Ok(Some(v)),
                    None => Err(StoreError::NotFoundError),
                }
            },
        }
    }
}

} // verus!

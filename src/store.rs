//! The store: one entity table per kind of record, laid over the regions of
//! one durable medium, and the create/read/update/delete operations on them.

use vstd::prelude::*;
use crate::codec::{appointment_bytes, client_bytes, service_bytes};
use crate::durable::{open_regions, MAX_RECORD_SIZE};
use crate::model::{
    appointment_from,
    appointment_payload_valid,
    client_from,
    client_payload_valid,
    service_from,
    service_payload_valid,
    Appointment,
    AppointmentPayload,
    AppointmentView,
    Client,
    ClientView,
    ClientPayload,
    Service,
    ServicePayload,
    ServiceView,
    StoreError,
};
use crate::table::{is_listing, raised, views, Entities, Record};

verus! {

/// Region of the durable medium that holds the client identity counter.
pub const CLIENT_COUNTER_REGION: u8 = 0;

/// Region that holds the service identity counter.
pub const SERVICE_COUNTER_REGION: u8 = 1;

/// Region that holds the appointment identity counter.
pub const APPOINTMENT_COUNTER_REGION: u8 = 2;

/// Region that holds the client table.
pub const CLIENT_TABLE_REGION: u8 = 3;

/// Region that holds the service table.
pub const SERVICE_TABLE_REGION: u8 = 4;

/// Region that holds the appointment table.
pub const APPOINTMENT_TABLE_REGION: u8 = 5;

/// `a` and `b` hold the same records and hand out the same next identity.
pub open spec fn same_state<R: Record>(a: Entities<R>, b: Entities<R>) -> bool {
    a.records() == b.records() && a.next_id() == b.next_id()
}

/// The records of every kind, each kind in its own regions.
pub struct Store {
    pub clients: Entities<Client>,
    pub services: Entities<Service>,
    pub appointments: Entities<Appointment>,
}

impl Store {
    /// Each entity table is well formed.
    pub open spec fn wf(&self) -> bool {
        self.clients.wf() && self.services.wf() && self.appointments.wf()
    }

    /// Opens the store on the default durable medium, with what it already
    /// holds. `MediumFailure` where a region does not hold what the store
    /// keeps there.
    ///
    /// On a canister the default medium is the one stable memory of the
    /// process: open one store per process and keep it, since a second store
    /// over the same regions would not see the first one's writes.
    pub fn open() -> (r: Result<Store, StoreError>)
        ensures
            r matches Ok(s) ==> s.wf(),
            r matches Err(e) ==> e == StoreError::MediumFailure,
    {
        let regions = open_regions();
        let clients = match Entities::open(&regions, CLIENT_COUNTER_REGION, CLIENT_TABLE_REGION) {
            Some(e) => e,
            None => return Err(StoreError::MediumFailure),
        };
        let services = match Entities::open(&regions, SERVICE_COUNTER_REGION, SERVICE_TABLE_REGION) {
            Some(e) => e,
            None => return Err(StoreError::MediumFailure),
        };
        let appointments = match Entities::open(
            &regions,
            APPOINTMENT_COUNTER_REGION,
            APPOINTMENT_TABLE_REGION,
        ) {
            Some(e) => e,
            None => return Err(StoreError::MediumFailure),
        };
        Ok(Store { clients, services, appointments })
    }

    /// A store on the default durable medium with no records and every
    /// counter at 0, discarding whatever the regions held. `MediumFailure`
    /// where a counter's region cannot grow to hold it. The same caution as
    /// for `open` holds: one store per process.
    pub fn new() -> (r: Result<Store, StoreError>)
        ensures
            r matches Ok(s) ==> s.wf() && s.clients.records() == Map::<u64, ClientView>::empty()
                && s.services.records() == Map::<u64, ServiceView>::empty()
                && s.appointments.records() == Map::<u64, AppointmentView>::empty()
                && s.clients.next_id() == 0 && s.services.next_id() == 0 && s.appointments.next_id() == 0,
            r matches Err(e) ==> e == StoreError::MediumFailure,
    {
        let regions = open_regions();
        let clients = match Entities::fresh(&regions, CLIENT_COUNTER_REGION, CLIENT_TABLE_REGION) {
            Some(e) => e,
            None => return Err(StoreError::MediumFailure),
        };
        let services = match Entities::fresh(&regions, SERVICE_COUNTER_REGION, SERVICE_TABLE_REGION) {
            Some(e) => e,
            None => return Err(StoreError::MediumFailure),
        };
        let appointments = match Entities::fresh(
            &regions,
            APPOINTMENT_COUNTER_REGION,
            APPOINTMENT_TABLE_REGION,
        ) {
            Some(e) => e,
            None => return Err(StoreError::MediumFailure),
        };
        Ok(Store { clients, services, appointments })
    }

    /// Stores a new client made of `payload` under the next client identity.
    /// Fails with `ValidationError` on an invalid payload, before any
    /// identity is drawn; with `IdentitiesExhausted` where none is left; with
    /// `RecordTooLarge` where the record's encoding exceeds the bound; and
    /// succeeds otherwise.
    pub fn create_client(&mut self, payload: ClientPayload) -> (r: Result<Client, StoreError>)
        requires
            old(self).wf(),
        ensures
            final(self).wf(),
            final(self).services == old(self).services,
            final(self).appointments == old(self).appointments,
            !client_payload_valid(&payload) ==> r == Err::<Client, StoreError>(StoreError::ValidationError),
            client_payload_valid(&payload) && old(self).clients.next_id() == u64::MAX ==> r == Err::<Client, StoreError>(
                StoreError::IdentitiesExhausted,
            ),
            client_payload_valid(&payload) && old(self).clients.next_id() < u64::MAX && client_bytes(
                client_from(old(self).clients.next_id(), &payload),
            ).len() > MAX_RECORD_SIZE ==> r == Err::<Client, StoreError>(StoreError::RecordTooLarge),
            client_payload_valid(&payload) && old(self).clients.next_id() < u64::MAX && client_bytes(
                client_from(old(self).clients.next_id(), &payload),
            ).len() <= MAX_RECORD_SIZE ==> r is Ok,
            r matches Ok(x) ==> x@ == client_from(old(self).clients.next_id(), &payload) && final(self).clients.records()
                == old(self).clients.records().insert(x.id, x@) && final(self).clients.next_id() == x.id + 1,
            r is Err ==> same_state(final(self).clients, old(self).clients),
    {
        if !payload.is_valid() {
            return Err(StoreError::ValidationError);
        }
        let id = self.clients.peek_next();
        if id == u64::MAX {
            return Err(StoreError::IdentitiesExhausted);
        }
        let rec = Client {
            id,
            name: payload.name,
            email: payload.email,
            phone: payload.phone,
            address: payload.address,
        };
        let bytes = rec.encode();
        if bytes.len() > MAX_RECORD_SIZE {
            return Err(StoreError::RecordTooLarge);
        }
        let _ = self.clients.allocate();
        let written = do_insert_client(self, &rec);
        proof {
            assert(written is Ok);
        }
        Ok(rec)
    }

    /// Replaces the client with identity `id` by one made of `payload`, keeping
    /// the identity. Fails with `NotFoundError` where there is
    /// no such client, and with `RecordTooLarge` where the new record's encoding
    /// exceeds the bound; either way nothing changes.
    pub fn update_client(&mut self, id: u64, payload: ClientPayload) -> (r: Result<Client, StoreError>)
        requires
            old(self).wf(),
        ensures
            final(self).wf(),
            final(self).services == old(self).services,
            final(self).appointments == old(self).appointments,
            final(self).clients.next_id() == old(self).clients.next_id(),
            !old(self).clients.records().contains_key(id) ==> r == Err::<Client, StoreError>(
                StoreError::NotFoundError,
            ),
            old(self).clients.records().contains_key(id) ==> (client_bytes(client_from(id, &payload)).len()
                <= MAX_RECORD_SIZE <==> r is Ok),
            old(self).clients.records().contains_key(id) && client_bytes(client_from(id, &payload)).len()
                > MAX_RECORD_SIZE ==> r == Err::<Client, StoreError>(StoreError::RecordTooLarge),
            r matches Ok(x) ==> x@ == client_from(id, &payload) && final(self).clients.records()
                == old(self).clients.records().insert(id, x@),
            r is Err ==> final(self).clients.records() == old(self).clients.records(),
    {
        if self.clients.get(id).is_none() {
            return Err(StoreError::NotFoundError);
        }
        let rec = Client {
            id,
            name: payload.name,
            email: payload.email,
            phone: payload.phone,
            address: payload.address,
        };
        let bytes = rec.encode();
        if bytes.len() > MAX_RECORD_SIZE {
            return Err(StoreError::RecordTooLarge);
        }
        let written = do_insert_client(self, &rec);
        proof {
            assert(written is Ok);
        }
        Ok(rec)
    }

    /// The client with identity `id`, or `NotFoundError`.
    pub fn get_client_by_id(&self, id: u64) -> (r: Result<Client, StoreError>)
        requires
            self.wf(),
        ensures
            self.clients.records().contains_key(id) <==> r is Ok,
            r matches Ok(x) ==> x@ == self.clients.records()[id],
            r is Err ==> r == Err::<Client, StoreError>(StoreError::NotFoundError),
    {
        match self.clients.get(id) {
            Some(x) => Ok(x),
            None => Err(StoreError::NotFoundError),
        }
    }

    /// Every client, by ascending identity.
    pub fn get_all_clients(&self) -> (r: Vec<Client>)
        requires
            self.wf(),
        ensures
            is_listing::<Client>(self.clients.records(), views(r@)),
    {
        self.clients.list()
    }

    /// Removes the client with identity `id`, or fails with `NotFoundError`
    /// where there is none. Its identity is never handed out again.
    pub fn delete_client_by_id(&mut self, id: u64) -> (r: Result<(), StoreError>)
        requires
            old(self).wf(),
        ensures
            final(self).wf(),
            final(self).services == old(self).services,
            final(self).appointments == old(self).appointments,
            r is Ok <==> old(self).clients.records().contains_key(id),
            r is Err ==> r == Err::<(), StoreError>(StoreError::NotFoundError),
            final(self).clients.records() == old(self).clients.records().remove(id),
            final(self).clients.next_id() == old(self).clients.next_id(),
    {
        if self.clients.remove(id) {
            Ok(())
        } else {
            Err(StoreError::NotFoundError)
        }
    }

    /// Stores a new service made of `payload` under the next service identity.
    /// Fails with `ValidationError` on an invalid payload, before any
    /// identity is drawn; with `IdentitiesExhausted` where none is left; with
    /// `RecordTooLarge` where the record's encoding exceeds the bound; and
    /// succeeds otherwise.
    pub fn create_service(&mut self, payload: ServicePayload) -> (r: Result<Service, StoreError>)
        requires
            old(self).wf(),
        ensures
            final(self).wf(),
            final(self).clients == old(self).clients,
            final(self).appointments == old(self).appointments,
            !service_payload_valid(&payload) ==> r == Err::<Service, StoreError>(StoreError::ValidationError),
            service_payload_valid(&payload) && old(self).services.next_id() == u64::MAX ==> r == Err::<Service, StoreError>(
                StoreError::IdentitiesExhausted,
            ),
            service_payload_valid(&payload) && old(self).services.next_id() < u64::MAX && service_bytes(
                service_from(old(self).services.next_id(), &payload),
            ).len() > MAX_RECORD_SIZE ==> r == Err::<Service, StoreError>(StoreError::RecordTooLarge),
            service_payload_valid(&payload) && old(self).services.next_id() < u64::MAX && service_bytes(
                service_from(old(self).services.next_id(), &payload),
            ).len() <= MAX_RECORD_SIZE ==> r is Ok,
            r matches Ok(x) ==> x@ == service_from(old(self).services.next_id(), &payload) && final(self).services.records()
                == old(self).services.records().insert(x.id, x@) && final(self).services.next_id() == x.id + 1,
            r is Err ==> same_state(final(self).services, old(self).services),
    {
        if !payload.is_valid() {
            return Err(StoreError::ValidationError);
        }
        let id = self.services.peek_next();
        if id == u64::MAX {
            return Err(StoreError::IdentitiesExhausted);
        }
        let rec = Service {
            id,
            name: payload.name,
            description: payload.description,
            duration: payload.duration,
            price: payload.price,
        };
        let bytes = rec.encode();
        if bytes.len() > MAX_RECORD_SIZE {
            return Err(StoreError::RecordTooLarge);
        }
        let _ = self.services.allocate();
        let written = do_insert_service(self, &rec);
        proof {
            assert(written is Ok);
        }
        Ok(rec)
    }

    /// Replaces the service with identity `id` by one made of `payload`, keeping
    /// the identity. Fails with `NotFoundError` where there is
    /// no such service, and with `RecordTooLarge` where the new record's encoding
    /// exceeds the bound; either way nothing changes.
    pub fn update_service(&mut self, id: u64, payload: ServicePayload) -> (r: Result<Service, StoreError>)
        requires
            old(self).wf(),
        ensures
            final(self).wf(),
            final(self).clients == old(self).clients,
            final(self).appointments == old(self).appointments,
            final(self).services.next_id() == old(self).services.next_id(),
            !old(self).services.records().contains_key(id) ==> r == Err::<Service, StoreError>(
                StoreError::NotFoundError,
            ),
            old(self).services.records().contains_key(id) ==> (service_bytes(service_from(id, &payload)).len()
                <= MAX_RECORD_SIZE <==> r is Ok),
            old(self).services.records().contains_key(id) && service_bytes(service_from(id, &payload)).len()
                > MAX_RECORD_SIZE ==> r == Err::<Service, StoreError>(StoreError::RecordTooLarge),
            r matches Ok(x) ==> x@ == service_from(id, &payload) && final(self).services.records()
                == old(self).services.records().insert(id, x@),
            r is Err ==> final(self).services.records() == old(self).services.records(),
    {
        if self.services.get(id).is_none() {
            return Err(StoreError::NotFoundError);
        }
        let rec = Service {
            id,
            name: payload.name,
            description: payload.description,
            duration: payload.duration,
            price: payload.price,
        };
        let bytes = rec.encode();
        if bytes.len() > MAX_RECORD_SIZE {
            return Err(StoreError::RecordTooLarge);
        }
        let written = do_insert_service(self, &rec);
        proof {
            assert(written is Ok);
        }
        Ok(rec)
    }

    /// The service with identity `id`, or `NotFoundError`.
    pub fn get_service_by_id(&self, id: u64) -> (r: Result<Service, StoreError>)
        requires
            self.wf(),
        ensures
            self.services.records().contains_key(id) <==> r is Ok,
            r matches Ok(x) ==> x@ == self.services.records()[id],
            r is Err ==> r == Err::<Service, StoreError>(StoreError::NotFoundError),
    {
        match self.services.get(id) {
            Some(x) => Ok(x),
            None => Err(StoreError::NotFoundError),
        }
    }

    /// Every service, by ascending identity.
    pub fn get_all_services(&self) -> (r: Vec<Service>)
        requires
            self.wf(),
        ensures
            is_listing::<Service>(self.services.records(), views(r@)),
    {
        self.services.list()
    }

    /// Removes the service with identity `id`, or fails with `NotFoundError`
    /// where there is none. Its identity is never handed out again.
    pub fn delete_service_by_id(&mut self, id: u64) -> (r: Result<(), StoreError>)
        requires
            old(self).wf(),
        ensures
            final(self).wf(),
            final(self).clients == old(self).clients,
            final(self).appointments == old(self).appointments,
            r is Ok <==> old(self).services.records().contains_key(id),
            r is Err ==> r == Err::<(), StoreError>(StoreError::NotFoundError),
            final(self).services.records() == old(self).services.records().remove(id),
            final(self).services.next_id() == old(self).services.next_id(),
    {
        if self.services.remove(id) {
            Ok(())
        } else {
            Err(StoreError::NotFoundError)
        }
    }

    /// Stores a new appointment made of `payload` under the next appointment identity.
    /// Fails with `ValidationError` on an invalid payload, before any
    /// identity is drawn; with `IdentitiesExhausted` where none is left; with
    /// `RecordTooLarge` where the record's encoding exceeds the bound; and
    /// succeeds otherwise.
    pub fn create_appointment(&mut self, payload: AppointmentPayload, now: u64) -> (r: Result<Appointment, StoreError>)
        requires
            old(self).wf(),
        ensures
            final(self).wf(),
            final(self).clients == old(self).clients,
            final(self).services == old(self).services,
            !appointment_payload_valid(&payload) ==> r == Err::<Appointment, StoreError>(StoreError::ValidationError),
            appointment_payload_valid(&payload) && old(self).appointments.next_id() == u64::MAX ==> r == Err::<Appointment, StoreError>(
                StoreError::IdentitiesExhausted,
            ),
            appointment_payload_valid(&payload) && old(self).appointments.next_id() < u64::MAX && appointment_bytes(
                appointment_from(old(self).appointments.next_id(), &payload, now, None),
            ).len() > MAX_RECORD_SIZE ==> r == Err::<Appointment, StoreError>(StoreError::RecordTooLarge),
            appointment_payload_valid(&payload) && old(self).appointments.next_id() < u64::MAX && appointment_bytes(
                appointment_from(old(self).appointments.next_id(), &payload, now, None),
            ).len() <= MAX_RECORD_SIZE ==> r is Ok,
            r matches Ok(x) ==> x@ == appointment_from(old(self).appointments.next_id(), &payload, now, None) && final(self).appointments.records()
                == old(self).appointments.records().insert(x.id, x@) && final(self).appointments.next_id() == x.id + 1,
            r is Err ==> same_state(final(self).appointments, old(self).appointments),
    {
        if !payload.is_valid() {
            return Err(StoreError::ValidationError);
        }
        let id = self.appointments.peek_next();
        if id == u64::MAX {
            return Err(StoreError::IdentitiesExhausted);
        }
        let rec = Appointment {
            id,
            client_id: payload.client_id,
            service_id: payload.service_id,
            date: payload.date,
            time: payload.time,
            status: payload.status,
            created_at: now,
            updated_at: None,
        };
        let bytes = rec.encode();
        if bytes.len() > MAX_RECORD_SIZE {
            return Err(StoreError::RecordTooLarge);
        }
        let _ = self.appointments.allocate();
        let written = do_insert_appointment(self, &rec);
        proof {
            assert(written is Ok);
        }
        Ok(rec)
    }

    /// Replaces the appointment with identity `id` by one made of `payload`, keeping
    /// the identity and the creation time, and recording `now` as the time of this update. Fails with `NotFoundError` where there is
    /// no such appointment, and with `RecordTooLarge` where the new record's encoding
    /// exceeds the bound; either way nothing changes.
    pub fn update_appointment(&mut self, id: u64, payload: AppointmentPayload, now: u64) -> (r: Result<Appointment, StoreError>)
        requires
            old(self).wf(),
        ensures
            final(self).wf(),
            final(self).clients == old(self).clients,
            final(self).services == old(self).services,
            final(self).appointments.next_id() == old(self).appointments.next_id(),
            !old(self).appointments.records().contains_key(id) ==> r == Err::<Appointment, StoreError>(
                StoreError::NotFoundError,
            ),
            old(self).appointments.records().contains_key(id) ==> (appointment_bytes(appointment_from(id, &payload, old(self).appointments.records()[id].created_at, Some(now))).len()
                <= MAX_RECORD_SIZE <==> r is Ok),
            old(self).appointments.records().contains_key(id) && appointment_bytes(appointment_from(id, &payload, old(self).appointments.records()[id].created_at, Some(now))).len()
                > MAX_RECORD_SIZE ==> r == Err::<Appointment, StoreError>(StoreError::RecordTooLarge),
            r matches Ok(x) ==> x@ == appointment_from(id, &payload, old(self).appointments.records()[id].created_at, Some(now)) && final(self).appointments.records()
                == old(self).appointments.records().insert(id, x@),
            r is Err ==> final(self).appointments.records() == old(self).appointments.records(),
    {
        let current = match self.appointments.get(id) {
            Some(c) => c,
            None => return Err(StoreError::NotFoundError),
        };
        let rec = Appointment {
            id,
            client_id: payload.client_id,
            service_id: payload.service_id,
            date: payload.date,
            time: payload.time,
            status: payload.status,
            created_at: current.created_at,
            updated_at: Some(now),
        };
        let bytes = rec.encode();
        if bytes.len() > MAX_RECORD_SIZE {
            return Err(StoreError::RecordTooLarge);
        }
        let written = do_insert_appointment(self, &rec);
        proof {
            assert(written is Ok);
        }
        Ok(rec)
    }

    /// The appointment with identity `id`, or `NotFoundError`.
    pub fn get_appointment_by_id(&self, id: u64) -> (r: Result<Appointment, StoreError>)
        requires
            self.wf(),
        ensures
            self.appointments.records().contains_key(id) <==> r is Ok,
            r matches Ok(x) ==> x@ == self.appointments.records()[id],
            r is Err ==> r == Err::<Appointment, StoreError>(StoreError::NotFoundError),
    {
        match self.appointments.get(id) {
            Some(x) => Ok(x),
            None => Err(StoreError::NotFoundError),
        }
    }

    /// Every appointment, by ascending identity.
    pub fn get_all_appointments(&self) -> (r: Vec<Appointment>)
        requires
            self.wf(),
        ensures
            is_listing::<Appointment>(self.appointments.records(), views(r@)),
    {
        self.appointments.list()
    }

    /// Removes the appointment with identity `id`, or fails with `NotFoundError`
    /// where there is none. Its identity is never handed out again.
    pub fn delete_appointment_by_id(&mut self, id: u64) -> (r: Result<(), StoreError>)
        requires
            old(self).wf(),
        ensures
            final(self).wf(),
            final(self).clients == old(self).clients,
            final(self).services == old(self).services,
            r is Ok <==> old(self).appointments.records().contains_key(id),
            r is Err ==> r == Err::<(), StoreError>(StoreError::NotFoundError),
            final(self).appointments.records() == old(self).appointments.records().remove(id),
            final(self).appointments.next_id() == old(self).appointments.next_id(),
    {
        if self.appointments.remove(id) {
            Ok(())
        } else {
            Err(StoreError::NotFoundError)
        }
    }
}

/// Writes `client` under its own identity, replacing any client there: the one
/// write primitive behind both create and update. The counter is raised past
/// that identity, so it is never handed out again. Fails, changing nothing,
/// with `RecordTooLarge` where the encoding exceeds the bound.
pub fn do_insert_client(store: &mut Store, client: &Client) -> (r: Result<(), StoreError>)
    requires
        old(store).wf(),
    ensures
        final(store).wf(),
        final(store).services == old(store).services,
        final(store).appointments == old(store).appointments,
        client_bytes(client@).len() <= MAX_RECORD_SIZE <==> r is Ok,
        r is Err ==> r == Err::<(), StoreError>(StoreError::RecordTooLarge) && same_state(
            final(store).clients,
            old(store).clients,
        ),
        r is Ok ==> final(store).clients.records() == old(store).clients.records().insert(client.id, client@)
            && final(store).clients.next_id() == raised(old(store).clients.next_id(), client.id),
{
    let bytes = client.encode();
    if bytes.len() > MAX_RECORD_SIZE {
        return Err(StoreError::RecordTooLarge);
    }
    store.clients.raise_past(client.id);
    store.clients.put_encoded(client.id, &bytes, Ghost(client@));
    Ok(())
}

/// Writes `service` under its own identity, replacing any service there: the one
/// write primitive behind both create and update. The counter is raised past
/// that identity, so it is never handed out again. Fails, changing nothing,
/// with `RecordTooLarge` where the encoding exceeds the bound.
pub fn do_insert_service(store: &mut Store, service: &Service) -> (r: Result<(), StoreError>)
    requires
        old(store).wf(),
    ensures
        final(store).wf(),
        final(store).clients == old(store).clients,
        final(store).appointments == old(store).appointments,
        service_bytes(service@).len() <= MAX_RECORD_SIZE <==> r is Ok,
        r is Err ==> r == Err::<(), StoreError>(StoreError::RecordTooLarge) && same_state(
            final(store).services,
            old(store).services,
        ),
        r is Ok ==> final(store).services.records() == old(store).services.records().insert(service.id, service@)
            && final(store).services.next_id() == raised(old(store).services.next_id(), service.id),
{
    let bytes = service.encode();
    if bytes.len() > MAX_RECORD_SIZE {
        return Err(StoreError::RecordTooLarge);
    }
    store.services.raise_past(service.id);
    store.services.put_encoded(service.id, &bytes, Ghost(service@));
    Ok(())
}

/// Writes `appointment` under its own identity, replacing any appointment there: the one
/// write primitive behind both create and update. The counter is raised past
/// that identity, so it is never handed out again. Fails, changing nothing,
/// with `RecordTooLarge` where the encoding exceeds the bound.
pub fn do_insert_appointment(store: &mut Store, appointment: &Appointment) -> (r: Result<(), StoreError>)
    requires
        old(store).wf(),
    ensures
        final(store).wf(),
        final(store).clients == old(store).clients,
        final(store).services == old(store).services,
        appointment_bytes(appointment@).len() <= MAX_RECORD_SIZE <==> r is Ok,
        r is Err ==> r == Err::<(), StoreError>(StoreError::RecordTooLarge) && same_state(
            final(store).appointments,
            old(store).appointments,
        ),
        r is Ok ==> final(store).appointments.records() == old(store).appointments.records().insert(appointment.id, appointment@)
            && final(store).appointments.next_id() == raised(old(store).appointments.next_id(), appointment.id),
{
    let bytes = appointment.encode();
    if bytes.len() > MAX_RECORD_SIZE {
        return Err(StoreError::RecordTooLarge);
    }
    store.appointments.raise_past(appointment.id);
    store.appointments.put_encoded(appointment.id, &bytes, Ghost(appointment@));
    Ok(())
}

} // verus!

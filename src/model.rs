//! The records of the scheduling domain, the payloads that callers supply,
//! and the errors that the store reports.

use vstd::prelude::*;
use vstd::string::*;

verus! {

/// A customer.
#[derive(Debug, Clone, PartialEq, Eq)]
pub struct Client {
    pub id: u64,
    pub name: String,
    pub email: String,
    pub phone: String,
    pub address: String,
}

/// A service on offer, with its duration and its price.
#[derive(Debug, Clone, PartialEq, Eq)]
pub struct Service {
    pub id: u64,
    pub name: String,
    pub description: String,
    pub duration: u64,
    pub price: u64,
}

/// A booking of a service by a client. `client_id` and `service_id` refer to
/// records by identity; the store does not keep them resolvable.
#[derive(Debug, Clone, PartialEq, Eq)]
pub struct Appointment {
    pub id: u64,
    pub client_id: u64,
    pub service_id: u64,
    /// Day of the appointment, written `dd/mm/yyyy`.
    pub date: String,
    pub time: String,
    pub status: String,
    pub created_at: u64,
    pub updated_at: Option<u64>,
}

/// The fields of a client that a caller supplies.
#[derive(Debug, Clone, PartialEq, Eq)]
pub struct ClientPayload {
    pub name: String,
    pub email: String,
    pub phone: String,
    pub address: String,
}

/// The fields of a service that a caller supplies.
#[derive(Debug, Clone, PartialEq, Eq)]
pub struct ServicePayload {
    pub name: String,
    pub description: String,
    pub duration: u64,
    pub price: u64,
}

/// The fields of an appointment that a caller supplies.
#[derive(Debug, Clone, PartialEq, Eq)]
pub struct AppointmentPayload {
    pub client_id: u64,
    pub service_id: u64,
    pub date: String,
    pub time: String,
    pub status: String,
}

/// Why an operation of the store did not go through.
#[derive(Debug, Clone, Copy, PartialEq, Eq, Structural)]
pub enum StoreError {
    /// A required field is empty, or a quantity that must be positive is not.
    ValidationError,
    /// No record has the requested identity.
    NotFoundError,
    /// An appointment refers to a client or service that no longer exists.
    ReferentialInconsistency,
    /// An amount does not fit in 64 bits.
    AmountOverflow,
    /// The encoded record would exceed the bound on a record's size.
    RecordTooLarge,
    /// Every identity of the kind has been handed out already.
    IdentitiesExhausted,
    /// The durable medium refused a write.
    MediumFailure,
}

/// A client as a mathematical value.
pub struct ClientView {
    pub id: u64,
    pub name: Seq<char>,
    pub email: Seq<char>,
    pub phone: Seq<char>,
    pub address: Seq<char>,
}

/// A service as a mathematical value.
pub struct ServiceView {
    pub id: u64,
    pub name: Seq<char>,
    pub description: Seq<char>,
    pub duration: u64,
    pub price: u64,
}

/// An appointment as a mathematical value.
pub struct AppointmentView {
    pub id: u64,
    pub client_id: u64,
    pub service_id: u64,
    pub date: Seq<char>,
    pub time: Seq<char>,
    pub status: Seq<char>,
    pub created_at: u64,
    pub updated_at: Option<u64>,
}

impl View for Client {
    type V = ClientView;

    open spec fn view(&self) -> ClientView {
        ClientView {
            id: self.id,
            name: self.name@,
            email: self.email@,
            phone: self.phone@,
            address: self.address@,
        }
    }
}

impl View for Service {
    type V = ServiceView;

    open spec fn view(&self) -> ServiceView {
        ServiceView {
            id: self.id,
            name: self.name@,
            description: self.description@,
            duration: self.duration,
            price: self.price,
        }
    }
}

impl View for Appointment {
    type V = AppointmentView;

    open spec fn view(&self) -> AppointmentView {
        AppointmentView {
            id: self.id,
            client_id: self.client_id,
            service_id: self.service_id,
            date: self.date@,
            time: self.time@,
            status: self.status@,
            created_at: self.created_at,
            updated_at: self.updated_at,
        }
    }
}

impl Appointment {
    /// A copy of the appointment.
    pub fn duplicate(&self) -> (r: Appointment)
        ensures
            r@ == self@,
    {
        Appointment {
            id: self.id,
            client_id: self.client_id,
            service_id: self.service_id,
            date: self.date.clone(),
            time: self.time.clone(),
            status: self.status.clone(),
            created_at: self.created_at,
            updated_at: self.updated_at,
        }
    }
}

/// A client payload is accepted when none of its fields is empty.
pub open spec fn client_payload_valid(p: &ClientPayload) -> bool {
    p.name@.len() > 0 && p.email@.len() > 0 && p.phone@.len() > 0 && p.address@.len() > 0
}

/// A service payload is accepted when its texts are non-empty and its
/// duration and price are positive.
pub open spec fn service_payload_valid(p: &ServicePayload) -> bool {
    p.name@.len() > 0 && p.description@.len() > 0 && p.duration > 0 && p.price > 0
}

/// An appointment payload is accepted when its date, time and status are
/// non-empty.
pub open spec fn appointment_payload_valid(p: &AppointmentPayload) -> bool {
    p.date@.len() > 0 && p.time@.len() > 0 && p.status@.len() > 0
}

/// The client with identity `id` and the fields of `p`.
pub open spec fn client_from(id: u64, p: &ClientPayload) -> ClientView {
    ClientView { id, name: p.name@, email: p.email@, phone: p.phone@, address: p.address@ }
}

/// The service with identity `id` and the fields of `p`.
pub open spec fn service_from(id: u64, p: &ServicePayload) -> ServiceView {
    ServiceView {
        id,
        name: p.name@,
        description: p.description@,
        duration: p.duration,
        price: p.price,
    }
}

/// The appointment with identity `id`, the fields of `p` and the given
/// timestamps.
pub open spec fn appointment_from(
    id: u64,
    p: &AppointmentPayload,
    created_at: u64,
    updated_at: Option<u64>,
) -> AppointmentView {
    AppointmentView {
        id,
        client_id: p.client_id,
        service_id: p.service_id,
        date: p.date@,
        time: p.time@,
        status: p.status@,
        created_at,
        updated_at,
    }
}

/// Whether `s` holds at least one character.
pub fn has_text(s: &String) -> (r: bool)
    ensures
        r == (s@.len() > 0),
{
    s.as_str().unicode_len() > 0
}

impl ClientPayload {
    /// Whether the payload may be stored.
    pub fn is_valid(&self) -> (r: bool)
        ensures
            r == client_payload_valid(self),
    {
        has_text(&self.name) && has_text(&self.email) && has_text(&self.phone)
            && has_text(&self.address)
    }
}

impl ServicePayload {
    /// Whether the payload may be stored.
    pub fn is_valid(&self) -> (r: bool)
        ensures
            r == service_payload_valid(self),
    {
        has_text(&self.name) && has_text(&self.description) && self.duration > 0 && self.price > 0
    }
}

impl AppointmentPayload {
    /// Whether the payload may be stored.
    pub fn is_valid(&self) -> (r: bool)
        ensures
            r == appointment_payload_valid(self),
    {
        has_text(&self.date) && has_text(&self.time) && has_text(&self.status)
    }
}

} // verus!

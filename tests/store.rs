use elegance_hub::codec::{decode_client, encode_client, decode_appointment, encode_appointment};
use elegance_hub::model::{
    Appointment, AppointmentPayload, Client, ClientPayload, ServicePayload, StoreError,
};
use elegance_hub::query::folded_status_matches;
use elegance_hub::table::load_entries;
use elegance_hub::store::{do_insert_appointment, do_insert_client, do_insert_service, Store};

fn client(name: &str) -> ClientPayload {
    ClientPayload {
        name: name.to_string(),
        email: format!("{}@example.com", name),
        phone: "555-0100".to_string(),
        address: "1 Main St".to_string(),
    }
}

fn service(name: &str, price: u64) -> ServicePayload {
    ServicePayload {
        name: name.to_string(),
        description: "Basic cut".to_string(),
        duration: 30,
        price,
    }
}

fn booking(client_id: u64, service_id: u64, date: &str, status: &str) -> AppointmentPayload {
    AppointmentPayload {
        client_id,
        service_id,
        date: date.to_string(),
        time: "10:00".to_string(),
        status: status.to_string(),
    }
}

#[test]
fn empty_store_has_no_clients() {
    let store = Store::new().unwrap();
    assert!(store.get_all_clients().is_empty());
    assert_eq!(store.get_client_by_id(0), Err(StoreError::NotFoundError));
    assert_eq!(store.get_client_by_id(u64::MAX), Err(StoreError::NotFoundError));
}

#[test]
fn revenue_of_one_booking() {
    let mut store = Store::new().unwrap();
    let s = store
        .create_service(ServicePayload {
            name: "Haircut".to_string(),
            description: "Basic cut".to_string(),
            duration: 30,
            price: 20,
        })
        .unwrap();
    assert_eq!(s.id, 0);
    store
        .create_appointment(booking(0, 0, "01/01/2024", "booked"), 1_000)
        .unwrap();
    assert_eq!(
        store.get_total_revenue_by_service_id_and_date(0, "01/01/2024".to_string()),
        Ok(20)
    );
}

#[test]
fn revenue_sums_each_booking_of_the_day() {
    let mut store = Store::new().unwrap();
    store.create_service(service("Haircut", 20)).unwrap();
    store.create_service(service("Shave", 7)).unwrap();
    store.create_appointment(booking(0, 0, "01/01/2024", "booked"), 1).unwrap();
    store.create_appointment(booking(1, 0, "01/01/2024", "booked"), 2).unwrap();
    store.create_appointment(booking(1, 0, "02/01/2024", "booked"), 3).unwrap();
    store.create_appointment(booking(1, 1, "01/01/2024", "booked"), 4).unwrap();
    assert_eq!(
        store.get_total_revenue_by_service_id_and_date(0, "01/01/2024".to_string()),
        Ok(40)
    );
    assert_eq!(
        store.get_total_revenue_by_service_id_and_date(1, "01/01/2024".to_string()),
        Ok(7)
    );
    assert_eq!(
        store.get_total_revenue_by_service_id_and_date(0, "03/01/2024".to_string()),
        Ok(0)
    );
}

#[test]
fn revenue_of_a_deleted_service_is_reported() {
    let mut store = Store::new().unwrap();
    store.create_service(service("Haircut", 20)).unwrap();
    store.create_appointment(booking(0, 0, "01/01/2024", "booked"), 1).unwrap();
    store.delete_service_by_id(0).unwrap();
    assert_eq!(
        store.get_total_revenue_by_service_id_and_date(0, "01/01/2024".to_string()),
        Err(StoreError::ReferentialInconsistency)
    );
}

#[test]
fn revenue_that_overflows_is_reported() {
    let mut store = Store::new().unwrap();
    store.create_service(service("Gold", u64::MAX)).unwrap();
    store.create_appointment(booking(0, 0, "01/01/2024", "booked"), 1).unwrap();
    assert_eq!(
        store.get_total_revenue_by_service_id_and_date(0, "01/01/2024".to_string()),
        Ok(u64::MAX)
    );
    store.create_appointment(booking(0, 0, "01/01/2024", "booked"), 2).unwrap();
    assert_eq!(
        store.get_total_revenue_by_service_id_and_date(0, "01/01/2024".to_string()),
        Err(StoreError::AmountOverflow)
    );
}

#[test]
fn most_popular_service_has_most_bookings() {
    let mut store = Store::new().unwrap();
    store.create_service(service("Haircut", 20)).unwrap();
    store.create_service(service("Shave", 7)).unwrap();
    store.create_appointment(booking(0, 1, "01/01/2024", "booked"), 1).unwrap();
    store.create_appointment(booking(0, 0, "01/01/2024", "booked"), 2).unwrap();
    store.create_appointment(booking(1, 0, "01/01/2024", "booked"), 3).unwrap();
    store.create_appointment(booking(2, 0, "01/01/2024", "booked"), 4).unwrap();
    let top = store.get_most_popular_service().unwrap().unwrap();
    assert_eq!(top.id, 0);
    assert_eq!(top.name, "Haircut");
}

#[test]
fn most_popular_tie_goes_to_lowest_identity() {
    let mut store = Store::new().unwrap();
    store.create_service(service("Haircut", 20)).unwrap();
    store.create_service(service("Shave", 7)).unwrap();
    store.create_appointment(booking(3, 1, "01/01/2024", "booked"), 1).unwrap();
    store.create_appointment(booking(2, 0, "01/01/2024", "booked"), 2).unwrap();
    store.create_appointment(booking(2, 1, "01/01/2024", "booked"), 3).unwrap();
    store.create_appointment(booking(3, 0, "01/01/2024", "booked"), 4).unwrap();
    assert_eq!(store.get_most_popular_service().unwrap().unwrap().id, 0);
    store.create_client(client("a")).unwrap();
    store.create_client(client("b")).unwrap();
    store.create_client(client("c")).unwrap();
    store.create_client(client("d")).unwrap();
    assert_eq!(store.get_most_popular_client().unwrap().unwrap().id, 2);
}

#[test]
fn most_popular_on_no_appointments_is_not_found() {
    let mut store = Store::new().unwrap();
    store.create_service(service("Haircut", 20)).unwrap();
    store.create_client(client("a")).unwrap();
    assert_eq!(store.get_most_popular_service(), Ok(None));
    assert_eq!(store.get_most_popular_client(), Ok(None));
}

#[test]
fn most_popular_client_that_is_gone_is_reported() {
    let mut store = Store::new().unwrap();
    store.create_client(client("a")).unwrap();
    store.create_client(client("b")).unwrap();
    store.create_appointment(booking(1, 0, "01/01/2024", "booked"), 1).unwrap();
    assert_eq!(store.get_most_popular_client().unwrap().unwrap().name, "b");
    store.delete_client_by_id(1).unwrap();
    assert_eq!(store.get_most_popular_client(), Err(StoreError::NotFoundError));
}

#[test]
fn status_matches_regardless_of_case() {
    let mut store = Store::new().unwrap();
    store.create_appointment(booking(0, 0, "01/01/2024", "booked"), 1).unwrap();
    store.create_appointment(booking(0, 0, "01/01/2024", "BOOKED"), 2).unwrap();
    store.create_appointment(booking(0, 0, "01/01/2024", "cancelled"), 3).unwrap();
    store.create_appointment(booking(0, 0, "01/01/2024", "Booked"), 4).unwrap();
    let found: Vec<u64> = store
        .get_all_appointments_by_status("Booked".to_string())
        .iter()
        .map(|a| a.id)
        .collect();
    assert_eq!(found, vec![0, 1, 3]);
    let upper: Vec<u64> = store
        .get_all_appointments_by_status("CANCELLED".to_string())
        .iter()
        .map(|a| a.id)
        .collect();
    assert_eq!(upper, vec![2]);
}

#[test]
fn filters_by_client_service_and_date() {
    let mut store = Store::new().unwrap();
    store.create_appointment(booking(0, 0, "01/01/2024", "booked"), 1).unwrap();
    store.create_appointment(booking(1, 0, "02/01/2024", "booked"), 2).unwrap();
    store.create_appointment(booking(1, 2, "01/01/2024", "booked"), 3).unwrap();
    let ids = |v: Vec<Appointment>| v.iter().map(|a| a.id).collect::<Vec<u64>>();
    assert_eq!(ids(store.get_all_appointments_by_client_id(1)), vec![1, 2]);
    assert_eq!(ids(store.get_all_appointments_by_service_id(0)), vec![0, 1]);
    assert_eq!(ids(store.get_all_appointments_by_date("01/01/2024".to_string())), vec![0, 2]);
    assert!(store.get_all_appointments_by_client_id(9).is_empty());
}

#[test]
fn create_then_read_gives_equal_record() {
    let mut store = Store::new().unwrap();
    let a = store.create_client(client("ann")).unwrap();
    let b = store.create_client(client("bob")).unwrap();
    assert_eq!(a.id, 0);
    assert_eq!(b.id, 1);
    assert_eq!(store.get_client_by_id(0), Ok(a.clone()));
    assert_eq!(store.get_client_by_id(1).unwrap().name, "bob");
    assert_eq!(a.email, "ann@example.com");
}

#[test]
fn identities_are_not_reused_after_delete() {
    let mut store = Store::new().unwrap();
    store.create_client(client("a")).unwrap();
    store.create_client(client("b")).unwrap();
    store.delete_client_by_id(1).unwrap();
    let c = store.create_client(client("c")).unwrap();
    assert_eq!(c.id, 2);
}

#[test]
fn invalid_payloads_are_refused_without_drawing_an_identity() {
    let mut store = Store::new().unwrap();
    let mut bad = client("a");
    bad.phone = String::new();
    assert_eq!(store.create_client(bad), Err(StoreError::ValidationError));
    assert_eq!(store.create_client(client("a")).unwrap().id, 0);
    let mut free = service("Haircut", 0);
    assert_eq!(store.create_service(free.clone()), Err(StoreError::ValidationError));
    free.price = 5;
    free.duration = 0;
    assert_eq!(store.create_service(free), Err(StoreError::ValidationError));
    let mut no_date = booking(0, 0, "", "booked");
    assert_eq!(store.create_appointment(no_date.clone(), 1), Err(StoreError::ValidationError));
    no_date.date = "01/01/2024".to_string();
    no_date.status = String::new();
    assert_eq!(store.create_appointment(no_date, 1), Err(StoreError::ValidationError));
    assert!(store.get_all_services().is_empty());
    assert!(store.get_all_appointments().is_empty());
}

#[test]
fn oversized_record_is_refused() {
    let mut store = Store::new().unwrap();
    let big = client(&"x".repeat(2000));
    assert_eq!(store.create_client(big), Err(StoreError::RecordTooLarge));
    assert!(store.get_all_clients().is_empty());
    let ok = store.create_client(client("a")).unwrap();
    assert_eq!(ok.id, 0);
    assert_eq!(
        store.update_client(0, client(&"y".repeat(2000))),
        Err(StoreError::RecordTooLarge)
    );
    assert_eq!(store.get_client_by_id(0).unwrap().name, "a");
}

#[test]
fn update_keeps_identity_and_creation_time() {
    let mut store = Store::new().unwrap();
    let a = store.create_appointment(booking(0, 0, "01/01/2024", "booked"), 100).unwrap();
    assert_eq!(a.created_at, 100);
    assert_eq!(a.updated_at, None);
    let u = store
        .update_appointment(0, booking(4, 5, "03/03/2024", "done"), 250)
        .unwrap();
    assert_eq!(u.id, 0);
    assert_eq!(u.created_at, 100);
    assert_eq!(u.updated_at, Some(250));
    let read = store.get_appointment_by_id(0).unwrap();
    assert_eq!(read, u);
    assert_eq!(read.client_id, 4);
    assert_eq!(read.service_id, 5);
    assert_eq!(read.date, "03/03/2024");
    assert_eq!(read.status, "done");
    let s = store.create_service(service("Cut", 10)).unwrap();
    let s2 = store.update_service(s.id, service("Trim", 12)).unwrap();
    assert_eq!(s2.id, s.id);
    assert_eq!(store.get_service_by_id(s.id).unwrap().price, 12);
}

#[test]
fn update_of_missing_record_is_not_found() {
    let mut store = Store::new().unwrap();
    assert_eq!(store.update_client(3, client("a")), Err(StoreError::NotFoundError));
    assert_eq!(store.update_service(0, service("a", 1)), Err(StoreError::NotFoundError));
    assert_eq!(
        store.update_appointment(0, booking(0, 0, "01/01/2024", "booked"), 1),
        Err(StoreError::NotFoundError)
    );
}

#[test]
fn delete_twice_is_not_found() {
    let mut store = Store::new().unwrap();
    store.create_service(service("Haircut", 20)).unwrap();
    assert_eq!(store.delete_service_by_id(0), Ok(()));
    assert_eq!(store.get_service_by_id(0), Err(StoreError::NotFoundError));
    assert_eq!(store.delete_service_by_id(0), Err(StoreError::NotFoundError));
    store.create_appointment(booking(0, 0, "01/01/2024", "booked"), 1).unwrap();
    assert_eq!(store.delete_appointment_by_id(0), Ok(()));
    assert_eq!(store.delete_appointment_by_id(0), Err(StoreError::NotFoundError));
}

#[test]
fn list_after_creates_and_deletes() {
    let mut store = Store::new().unwrap();
    for name in ["a", "b", "c", "d", "e"] {
        store.create_client(client(name)).unwrap();
    }
    store.delete_client_by_id(3).unwrap();
    store.delete_client_by_id(0).unwrap();
    store.update_client(2, client("z")).unwrap();
    let all: Vec<Client> = store.get_all_clients();
    assert_eq!(all.len(), 3);
    assert_eq!(all.iter().map(|c| c.id).collect::<Vec<u64>>(), vec![1, 2, 4]);
    assert_eq!(all[1].name, "z");
    assert_eq!(all[2].name, "e");
}

#[test]
fn client_encoding_round_trips() {
    let c = Client {
        id: 258,
        name: "Zoë".to_string(),
        email: "z@x".to_string(),
        phone: "1".to_string(),
        address: "".to_string(),
    };
    let bytes = encode_client(&c);
    assert_eq!(&bytes[0..8], &[2, 1, 0, 0, 0, 0, 0, 0]);
    assert_eq!(&bytes[8..16], &[4, 0, 0, 0, 0, 0, 0, 0]);
    assert_eq!(&bytes[16..20], "Zoë".as_bytes());
    assert_eq!(bytes.len(), 8 + (8 + 4) + (8 + 3) + (8 + 1) + 8);
    assert_eq!(decode_client(&bytes), Some(c));
    assert_eq!(decode_client(&bytes[..bytes.len() - 1].to_vec()), None);
    let mut longer = bytes.clone();
    longer.push(0);
    assert_eq!(decode_client(&longer), None);
    let mut bad_utf8 = bytes.clone();
    bad_utf8[16] = 0xff;
    assert_eq!(decode_client(&bad_utf8), None);
}

#[test]
fn appointment_encoding_round_trips() {
    let a = Appointment {
        id: 1,
        client_id: 2,
        service_id: 3,
        date: "01/01/2024".to_string(),
        time: "10:00".to_string(),
        status: "booked".to_string(),
        created_at: 9,
        updated_at: Some(11),
    };
    let bytes = encode_appointment(&a);
    assert_eq!(bytes.len(), 24 + 18 + 13 + 14 + 8 + 9);
    assert_eq!(decode_appointment(&bytes), Some(a.clone()));
    let none = Appointment { updated_at: None, ..a };
    let bytes = encode_appointment(&none);
    assert_eq!(bytes[bytes.len() - 1], 0);
    assert_eq!(decode_appointment(&bytes), Some(none));
}

#[test]
fn insert_overwrites_an_issued_identity_only() {
    let mut store = Store::new().unwrap();
    let mut c = store.create_client(client("a")).unwrap();
    c.name = "renamed".to_string();
    assert_eq!(do_insert_client(&mut store, &c), Ok(()));
    assert_eq!(store.get_client_by_id(0).unwrap().name, "renamed");
    let stranger = Client { id: 7, ..c.clone() };
    assert_eq!(do_insert_client(&mut store, &stranger), Ok(()));
    assert_eq!(store.get_client_by_id(7).unwrap().name, "renamed");
    assert_eq!(store.get_all_clients().len(), 2);
    assert_eq!(store.create_client(client("next")).unwrap().id, 8);

    let mut s = store.create_service(service("Cut", 10)).unwrap();
    s.price = 99;
    assert_eq!(do_insert_service(&mut store, &s), Ok(()));
    assert_eq!(store.get_service_by_id(0).unwrap().price, 99);
    s.description = "d".repeat(1100);
    assert_eq!(do_insert_service(&mut store, &s), Err(StoreError::RecordTooLarge));
    assert_eq!(store.get_service_by_id(0).unwrap().description, "Basic cut");

    let mut a = store.create_appointment(booking(0, 0, "01/01/2024", "booked"), 5).unwrap();
    store.delete_appointment_by_id(0).unwrap();
    a.status = "restored".to_string();
    assert_eq!(do_insert_appointment(&mut store, &a), Ok(()));
    assert_eq!(store.get_appointment_by_id(0).unwrap().status, "restored");
}

#[test]
fn first_identity_is_zero_for_every_kind() {
    let mut store = Store::new().unwrap();
    assert_eq!(store.create_client(client("a")).unwrap().id, 0);
    assert_eq!(store.create_service(service("Cut", 1)).unwrap().id, 0);
    assert_eq!(store.create_appointment(booking(0, 0, "01/01/2024", "booked"), 1).unwrap().id, 0);
}

#[test]
fn folded_statuses_match_when_equal() {
    assert!(folded_status_matches(&"booked".to_string(), &"booked".to_string()));
    assert!(!folded_status_matches(&"booked".to_string(), &"Booked".to_string()));
}

#[test]
fn loading_entries_checks_each_one() {
    let a = Client {
        id: 1,
        name: "a".to_string(),
        email: "e".to_string(),
        phone: "p".to_string(),
        address: "d".to_string(),
    };
    let good = vec![(1u64, encode_client(&a))];
    let loaded: Option<Vec<Client>> = load_entries(&good, 2);
    assert_eq!(loaded, Some(vec![a.clone()]));
    assert_eq!(load_entries::<Client>(&good, 1), None);
    assert_eq!(load_entries::<Client>(&good, u64::MAX), Some(vec![a.clone()]));
    let wrong_key = vec![(0u64, encode_client(&a))];
    assert_eq!(load_entries::<Client>(&wrong_key, 5), None);
    let garbage = vec![(1u64, vec![1, 2, 3])];
    assert_eq!(load_entries::<Client>(&garbage, 5), None);
    assert_eq!(load_entries::<Client>(&Vec::new(), 0), Some(Vec::new()));
}

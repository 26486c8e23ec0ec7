//! The record codec: each record as a sequence of bytes and back.
//!
//! An integer is its eight little-endian bytes, a text is the length of its
//! UTF-8 encoding as an integer followed by that encoding, an optional integer
//! is a tag byte (0 or 1) followed by the integer where there is one, and a
//! record is its fields in declaration order.

use vstd::prelude::*;
use vstd::bytes::{
    lemma_auto_spec_u64_to_from_le_bytes,
    spec_u64_to_le_bytes,
    u64_from_le_bytes,
    u64_to_le_bytes,
};
use vstd::slice::{slice_subrange, slice_to_vec};
use vstd::string::StrSliceExecFns;
use vstd::utf8::{decode_utf8, encode_utf8, valid_utf8};
use crate::model::{Appointment, AppointmentView, Client, ClientView, Service, ServiceView};
use crate::table::Record;

verus! {

broadcast use {vstd::utf8::encode_utf8_valid_utf8, vstd::utf8::encode_utf8_decode_utf8};

/// The encoding of an integer.
pub open spec fn u64_bytes(x: u64) -> Seq<u8> {
    spec_u64_to_le_bytes(x)
}

/// The encoding of a text.
pub open spec fn text_bytes(s: Seq<char>) -> Seq<u8> {
    u64_bytes(encode_utf8(s).len() as u64) + encode_utf8(s)
}

/// The encoding of an optional integer.
pub open spec fn option_bytes(o: Option<u64>) -> Seq<u8> {
    match o {
        None => seq![0u8],
        Some(x) => seq![1u8] + u64_bytes(x),
    }
}

/// The encoding of a client.
pub open spec fn client_bytes(c: ClientView) -> Seq<u8> {
    u64_bytes(c.id) + (text_bytes(c.name) + (text_bytes(c.email) + (text_bytes(c.phone)
        + text_bytes(c.address))))
}

/// The encoding of a service.
pub open spec fn service_bytes(s: ServiceView) -> Seq<u8> {
    u64_bytes(s.id) + (text_bytes(s.name) + (text_bytes(s.description) + (u64_bytes(s.duration)
        + u64_bytes(s.price))))
}

/// The encoding of an appointment.
pub open spec fn appointment_bytes(a: AppointmentView) -> Seq<u8> {
    u64_bytes(a.id) + (u64_bytes(a.client_id) + (u64_bytes(a.service_id) + (text_bytes(a.date)
        + (text_bytes(a.time) + (text_bytes(a.status) + (u64_bytes(a.created_at) + option_bytes(
        a.updated_at)))))))
}

/// Relies on `String::from_utf8`: it accepts exactly the valid UTF-8 byte
/// sequences, and the text it returns is the one they encode.
#[verifier::external_body]
fn string_from_utf8(v: Vec<u8>) -> (r: Option<String>)
    ensures
        r is Some <==> valid_utf8(v@),
        r is Some ==> r->0@ == decode_utf8(v@),
{
    String::from_utf8(v).ok()
}

fn put_u64(out: &mut Vec<u8>, x: u64)
    ensures
        final(out)@ == old(out)@ + u64_bytes(x),
{
    let mut b = u64_to_le_bytes(x);
    out.append(&mut b);
}

fn put_text(out: &mut Vec<u8>, s: &String)
    ensures
        final(out)@ == old(out)@ + text_bytes(s@),
{
    let mut b = s.as_str().as_bytes_vec();
    proof {
        assert(b@ == encode_utf8(s@));
    }
    put_u64(out, b.len() as u64);
    out.append(&mut b);
    proof {
        assert(final(out)@ =~= old(out)@ + text_bytes(s@));
    }
}

fn put_option(out: &mut Vec<u8>, o: Option<u64>)
    ensures
        final(out)@ == old(out)@ + option_bytes(o),
{
    match o {
        None => {
            out.push(0u8);
            proof {
                assert(final(out)@ =~= old(out)@ + option_bytes(o));
            }
        },
        Some(x) => {
            out.push(1u8);
            put_u64(out, x);
            proof {
                assert(final(out)@ =~= old(out)@ + option_bytes(o));
            }
        },
    }
}

/// The rest of `b` from `pos` on.
pub open spec fn tail(b: Seq<u8>, pos: int) -> Seq<u8> {
    b.subrange(pos, b.len() as int)
}

fn take_u64(b: &Vec<u8>, pos: usize) -> (r: Option<u64>)
    requires
        pos <= b@.len(),
    ensures
        r is Some <==> pos + 8 <= b@.len(),
        r is Some ==> tail(b@, pos as int) == u64_bytes(r->0) + tail(b@, pos + 8),
        forall|x: u64, rest: Seq<u8>|
            tail(b@, pos as int) == #[trigger] (u64_bytes(x) + rest) ==> r == Some(x) && tail(
                b@,
                pos + 8,
            ) == rest,
{
    proof {
        lemma_auto_spec_u64_to_from_le_bytes();
    }
    if 8 <= b.len() - pos {
        let s = slice_subrange(b.as_slice(), pos, pos + 8);
        let x = u64_from_le_bytes(s);
        proof {
            assert(tail(b@, pos as int) =~= s@ + tail(b@, pos + 8));
            assert forall|y: u64, rest: Seq<u8>|
                tail(b@, pos as int) == #[trigger] (u64_bytes(y) + rest) implies Some(x) == Some(y)
                && tail(b@, pos + 8) == rest by {
                assert(s@ =~= tail(b@, pos as int).subrange(0, 8));
                assert(u64_bytes(y) =~= (u64_bytes(y) + rest).subrange(0, 8));
                assert(rest =~= (u64_bytes(y) + rest).subrange(8, (u64_bytes(y) + rest).len() as int));
                assert(tail(b@, pos + 8) =~= tail(b@, pos as int).subrange(8, tail(b@, pos as int).len() as int));
            }
        }
        Some(x)
    } else {
        proof {
            assert forall|y: u64, rest: Seq<u8>|
                tail(b@, pos as int) == #[trigger] (u64_bytes(y) + rest) implies false by {
                assert(tail(b@, pos as int).len() == 8 + rest.len());
            }
        }
        None
    }
}

fn take_text(b: &Vec<u8>, pos: usize) -> (r: Option<(String, usize)>)
    requires
        pos <= b@.len(),
    ensures
        r matches Some((t, end)) ==> pos <= end <= b@.len() && tail(b@, pos as int) == text_bytes(
            t@,
        ) + tail(b@, end as int),
        forall|x: Seq<char>, rest: Seq<u8>|
            tail(b@, pos as int) == #[trigger] (text_bytes(x) + rest) ==> (r matches Some((t, end))
                && t@ == x && tail(b@, end as int) == rest),
{
    let len = b.len();
    match take_u64(b, pos) {
        None => {
            proof {
                assert forall|x: Seq<char>, rest: Seq<u8>|
                    tail(b@, pos as int) == #[trigger] (text_bytes(x) + rest) implies false by {
                    let e = encode_utf8(x);
                    assert(tail(b@, pos as int) =~= u64_bytes(e.len() as u64) + (e + rest));
                }
            }
            None
        },
        Some(n) => {
            let start = pos + 8;
            if n <= (len - start) as u64 {
                let end = start + n as usize;
                let bytes = slice_to_vec(slice_subrange(b.as_slice(), start, end));
                proof {
                    assert(tail(b@, start as int) =~= bytes@ + tail(b@, end as int));
                    assert forall|x: Seq<char>, rest: Seq<u8>|
                        tail(b@, pos as int) == #[trigger] (text_bytes(x) + rest) implies valid_utf8(bytes@)
                            && decode_utf8(bytes@) == x && tail(b@, end as int) == rest by {
                        let e = encode_utf8(x);
                        assert(tail(b@, pos as int) =~= u64_bytes(e.len() as u64) + (e + rest));
                        assert(n == e.len() as u64);
                        assert(e.len() < 0x1_0000_0000_0000_0000) by {
                            assert(tail(b@, pos as int).len() >= e.len());
                        }
                        assert(tail(b@, start as int) == e + rest);
                        assert(bytes@ =~= (e + rest).subrange(0, e.len() as int));
                        assert(bytes@ == e);
                        assert(rest =~= (e + rest).subrange(e.len() as int, (e + rest).len() as int));
                        assert(tail(b@, end as int) =~= tail(b@, start as int).subrange(
                            n as int,
                            tail(b@, start as int).len() as int,
                        ));
                    }
                }
                let ghost old_bytes = bytes@;
                match string_from_utf8(bytes) {
                    Some(t) => {
                        proof {
                            vstd::utf8::decode_utf8_encode_utf8(old_bytes);
                            assert(tail(b@, pos as int) =~= text_bytes(t@) + tail(b@, end as int));
                        }
                        Some((t, end))
                    },
                    None => None,
                }
            } else {
                proof {
                    assert forall|x: Seq<char>, rest: Seq<u8>|
                        tail(b@, pos as int) == #[trigger] (text_bytes(x) + rest) implies false by {
                        let e = encode_utf8(x);
                        assert(tail(b@, pos as int) =~= u64_bytes(e.len() as u64) + (e + rest));
                        assert(e.len() < 0x1_0000_0000_0000_0000) by {
                            assert(tail(b@, pos as int).len() >= e.len());
                        }
                    }
                }
                None
            }
        },
    }
}

fn take_option(b: &Vec<u8>, pos: usize) -> (r: Option<(Option<u64>, usize)>)
    requires
        pos <= b@.len(),
    ensures
        r matches Some((o, end)) ==> pos <= end <= b@.len() && tail(b@, pos as int) == option_bytes(
            o,
        ) + tail(b@, end as int),
        forall|x: Option<u64>, rest: Seq<u8>|
            tail(b@, pos as int) == #[trigger] (option_bytes(x) + rest) ==> (r matches Some((o, end))
                && o == x && tail(b@, end as int) == rest),
{
    if pos == b.len() {
        proof {
            assert forall|x: Option<u64>, rest: Seq<u8>|
                tail(b@, pos as int) == #[trigger] (option_bytes(x) + rest) implies false by {
                assert(tail(b@, pos as int).len() == 0);
            }
        }
        return None;
    }
    let tag = b[pos];
    proof {
        assert(tail(b@, pos as int) =~= seq![tag] + tail(b@, pos + 1));
    }
    if tag == 0 {
        proof {
            assert forall|x: Option<u64>, rest: Seq<u8>|
                tail(b@, pos as int) == #[trigger] (option_bytes(x) + rest) implies x == None::<u64>
                    && tail(b@, pos + 1) == rest by {
                assert((option_bytes(x) + rest)[0] == tag);
                assert(rest =~= (option_bytes(x) + rest).subrange(1, (option_bytes(x) + rest).len() as int));
                assert(tail(b@, pos + 1) =~= tail(b@, pos as int).subrange(1, tail(b@, pos as int).len() as int));
            }
        }
        Some((None, pos + 1))
    } else if tag == 1 {
        match take_u64(b, pos + 1) {
            Some(x) => {
                proof {
                    assert(tail(b@, pos as int) =~= option_bytes(Some(x)) + tail(b@, pos + 9));
                    assert forall|y: Option<u64>, rest: Seq<u8>|
                        tail(b@, pos as int) == #[trigger] (option_bytes(y) + rest) implies y == Some(x)
                            && tail(b@, pos + 9) == rest by {
                        assert((option_bytes(y) + rest)[0] == tag);
                        assert(y is Some);
                        let z = y->0;
                        assert(option_bytes(y) + rest =~= seq![1u8] + (u64_bytes(z) + rest));
                        assert(tail(b@, pos + 1) =~= tail(b@, pos as int).subrange(
                            1,
                            tail(b@, pos as int).len() as int,
                        ));
                        assert(tail(b@, pos + 1) =~= u64_bytes(z) + rest);
                    }
                }
                Some((Some(x), pos + 9))
            },
            None => {
                proof {
                    assert forall|y: Option<u64>, rest: Seq<u8>|
                        tail(b@, pos as int) == #[trigger] (option_bytes(y) + rest) implies false by {
                        assert((option_bytes(y) + rest)[0] == tag);
                        assert(y is Some);
                        let z = y->0;
                        assert(option_bytes(y) + rest =~= seq![1u8] + (u64_bytes(z) + rest));
                        assert(tail(b@, pos + 1) =~= tail(b@, pos as int).subrange(
                            1,
                            tail(b@, pos as int).len() as int,
                        ));
                        assert(tail(b@, pos + 1) =~= u64_bytes(z) + rest);
                    }
                }
                None
            },
        }
    } else {
        proof {
            assert forall|y: Option<u64>, rest: Seq<u8>|
                tail(b@, pos as int) == #[trigger] (option_bytes(y) + rest) implies false by {
                assert((option_bytes(y) + rest)[0] == tag);
            }
        }
        None
    }
}

/// The bytes that stand for `c`.
pub fn encode_client(c: &Client) -> (r: Vec<u8>)
    ensures
        r@ == client_bytes(c@),
{
    let mut out: Vec<u8> = Vec::new();
    put_u64(&mut out, c.id);
    put_text(&mut out, &c.name);
    put_text(&mut out, &c.email);
    put_text(&mut out, &c.phone);
    put_text(&mut out, &c.address);
    proof {
        assert(out@ =~= client_bytes(c@));
    }
    out
}

/// The client that `b` stands for, if any: exactly the encodings of clients
/// decode, each to the client it encodes.
pub fn decode_client(b: &Vec<u8>) -> (r: Option<Client>)
    ensures
        r is Some ==> b@ == client_bytes(r->0@),
        forall|m: ClientView| b@ == #[trigger] client_bytes(m) ==> (r is Some && r->0@ == m),
{
    let len = b.len();
    let o0 = take_u64(b, 0);
    let (id, pos0) = match o0 {
        Some(x) => (x, 8),
        None => (0, len),
    };
    let o1 = take_text(b, pos0);
    let ok1 = o1.is_some();
    let (name, pos1) = match o1 {
        Some(x) => x,
        None => (String::new(), len),
    };
    let o2 = take_text(b, pos1);
    let ok2 = o2.is_some();
    let (email, pos2) = match o2 {
        Some(x) => x,
        None => (String::new(), len),
    };
    let o3 = take_text(b, pos2);
    let ok3 = o3.is_some();
    let (phone, pos3) = match o3 {
        Some(x) => x,
        None => (String::new(), len),
    };
    let o4 = take_text(b, pos3);
    let ok4 = o4.is_some();
    let (address, pos4) = match o4 {
        Some(x) => x,
        None => (String::new(), len),
    };
    let ok = o0.is_some() && ok1 && ok2 && ok3 && ok4 && pos4 == len;
    let r = if ok {
        Some(Client { id, name, email, phone, address })
    } else {
        None
    };
    proof {
        assert(tail(b@, 0) =~= b@);
        assert(tail(b@, len as int) =~= Seq::<u8>::empty());
        if ok {
            assert(b@ =~= client_bytes(r->0@));
        }
        assert forall|m: ClientView| b@ == #[trigger] client_bytes(m) implies (r is Some && r->0@ == m) by {
            let r1 = text_bytes(m.name) + (text_bytes(m.email) + (text_bytes(m.phone) + text_bytes(m.address)));
            let r2 = text_bytes(m.email) + (text_bytes(m.phone) + text_bytes(m.address));
            let r3 = text_bytes(m.phone) + text_bytes(m.address);
            assert(tail(b@, 0) == u64_bytes(m.id) + r1);
            assert(tail(b@, pos0 as int) == text_bytes(m.name) + r2);
            assert(tail(b@, pos1 as int) == text_bytes(m.email) + r3);
            assert(tail(b@, pos2 as int) == text_bytes(m.phone) + text_bytes(m.address));
            assert(tail(b@, pos3 as int) =~= text_bytes(m.address) + Seq::<u8>::empty());
            assert(tail(b@, pos4 as int).len() == 0);
        }
    }
    r
}

/// The bytes that stand for `sv`.
pub fn encode_service(sv: &Service) -> (r: Vec<u8>)
    ensures
        r@ == service_bytes(sv@),
{
    let mut out: Vec<u8> = Vec::new();
    put_u64(&mut out, sv.id);
    put_text(&mut out, &sv.name);
    put_text(&mut out, &sv.description);
    put_u64(&mut out, sv.duration);
    put_u64(&mut out, sv.price);
    proof {
        assert(out@ =~= service_bytes(sv@));
    }
    out
}

/// The service that `b` stands for, if any: exactly the encodings of
/// services decode, each to the service it encodes.
pub fn decode_service(b: &Vec<u8>) -> (r: Option<Service>)
    ensures
        r is Some ==> b@ == service_bytes(r->0@),
        forall|m: ServiceView| b@ == #[trigger] service_bytes(m) ==> (r is Some && r->0@ == m),
{
    let len = b.len();
    let o0 = take_u64(b, 0);
    let (id, pos0) = match o0 {
        Some(x) => (x, 8),
        None => (0, len),
    };
    let o1 = take_text(b, pos0);
    let ok1 = o1.is_some();
    let (name, pos1) = match o1 {
        Some(x) => x,
        None => (String::new(), len),
    };
    let o2 = take_text(b, pos1);
    let ok2 = o2.is_some();
    let (description, pos2) = match o2 {
        Some(x) => x,
        None => (String::new(), len),
    };
    let o3 = take_u64(b, pos2);
    let (duration, pos3) = match o3 {
        Some(x) => (x, pos2 + 8),
        None => (0, len),
    };
    let o4 = take_u64(b, pos3);
    let (price, pos4) = match o4 {
        Some(x) => (x, pos3 + 8),
        None => (0, len),
    };
    let ok = o0.is_some() && ok1 && ok2 && o3.is_some() && o4.is_some() && pos4 == len;
    let r = if ok {
        Some(Service { id, name, description, duration, price })
    } else {
        None
    };
    proof {
        assert(tail(b@, 0) =~= b@);
        assert(tail(b@, len as int) =~= Seq::<u8>::empty());
        if ok {
            assert(b@ =~= service_bytes(r->0@));
        }
        assert forall|m: ServiceView| b@ == #[trigger] service_bytes(m) implies (r is Some && r->0@ == m) by {
            let r1 = text_bytes(m.name) + (text_bytes(m.description) + (u64_bytes(m.duration) + u64_bytes(m.price)));
            let r2 = text_bytes(m.description) + (u64_bytes(m.duration) + u64_bytes(m.price));
            let r3 = u64_bytes(m.duration) + u64_bytes(m.price);
            assert(tail(b@, 0) == u64_bytes(m.id) + r1);
            assert(tail(b@, pos0 as int) == text_bytes(m.name) + r2);
            assert(tail(b@, pos1 as int) == text_bytes(m.description) + r3);
            assert(tail(b@, pos2 as int) == u64_bytes(m.duration) + u64_bytes(m.price));
            assert(tail(b@, pos3 as int) =~= u64_bytes(m.price) + Seq::<u8>::empty());
            assert(tail(b@, pos4 as int).len() == 0);
        }
    }
    r
}

/// The bytes that stand for `a`.
#[verifier::rlimit(40)]
pub fn encode_appointment(a: &Appointment) -> (r: Vec<u8>)
    ensures
        r@ == appointment_bytes(a@),
{
    let mut out: Vec<u8> = Vec::new();
    put_u64(&mut out, a.id);
    put_u64(&mut out, a.client_id);
    put_u64(&mut out, a.service_id);
    put_text(&mut out, &a.date);
    put_text(&mut out, &a.time);
    put_text(&mut out, &a.status);
    put_u64(&mut out, a.created_at);
    put_option(&mut out, a.updated_at);
    proof {
        assert(out@ =~= appointment_bytes(a@));
    }
    out
}

/// The appointment that `b` stands for, if any: exactly the encodings of
/// appointments decode, each to the appointment it encodes.
pub fn decode_appointment(b: &Vec<u8>) -> (r: Option<Appointment>)
    ensures
        r is Some ==> b@ == appointment_bytes(r->0@),
        forall|m: AppointmentView| b@ == #[trigger] appointment_bytes(m) ==> (r is Some && r->0@ == m),
{
    let len = b.len();
    let o0 = take_u64(b, 0);
    let (id, pos0) = match o0 {
        Some(x) => (x, 8),
        None => (0, len),
    };
    let o1 = take_u64(b, pos0);
    let (client_id, pos1) = match o1 {
        Some(x) => (x, pos0 + 8),
        None => (0, len),
    };
    let o2 = take_u64(b, pos1);
    let (service_id, pos2) = match o2 {
        Some(x) => (x, pos1 + 8),
        None => (0, len),
    };
    let o3 = take_text(b, pos2);
    let ok3 = o3.is_some();
    let (date, pos3) = match o3 {
        Some(x) => x,
        None => (String::new(), len),
    };
    let o4 = take_text(b, pos3);
    let ok4 = o4.is_some();
    let (time, pos4) = match o4 {
        Some(x) => x,
        None => (String::new(), len),
    };
    let o5 = take_text(b, pos4);
    let ok5 = o5.is_some();
    let (status, pos5) = match o5 {
        Some(x) => x,
        None => (String::new(), len),
    };
    let o6 = take_u64(b, pos5);
    let (created_at, pos6) = match o6 {
        Some(x) => (x, pos5 + 8),
        None => (0, len),
    };
    let o7 = take_option(b, pos6);
    let (updated_at, pos7) = match o7 {
        Some(x) => x,
        None => (None, len),
    };
    let ok = o0.is_some() && o1.is_some() && o2.is_some() && ok3 && ok4 && ok5 && o6.is_some()
        && o7.is_some() && pos7 == len;
    let r = if ok {
        Some(
            Appointment {
                id,
                client_id,
                service_id,
                date,
                time,
                status,
                created_at,
                updated_at,
            },
        )
    } else {
        None
    };
    proof {
        assert(tail(b@, 0) =~= b@);
        assert(tail(b@, len as int) =~= Seq::<u8>::empty());
        if ok {
            assert(b@ =~= appointment_bytes(r->0@));
        }
        assert forall|m: AppointmentView| b@ == #[trigger] appointment_bytes(m) implies (r is Some
            && r->0@ == m) by {
            let r6 = u64_bytes(m.created_at) + option_bytes(m.updated_at);
            let r5 = text_bytes(m.status) + r6;
            let r4 = text_bytes(m.time) + r5;
            let r3 = text_bytes(m.date) + r4;
            let r2 = u64_bytes(m.service_id) + r3;
            let r1 = u64_bytes(m.client_id) + r2;
            assert(tail(b@, 0) == u64_bytes(m.id) + r1);
            assert(tail(b@, pos0 as int) == u64_bytes(m.client_id) + r2);
            assert(tail(b@, pos1 as int) == u64_bytes(m.service_id) + r3);
            assert(tail(b@, pos2 as int) == text_bytes(m.date) + r4);
            assert(tail(b@, pos3 as int) == text_bytes(m.time) + r5);
            assert(tail(b@, pos4 as int) == text_bytes(m.status) + r6);
            assert(tail(b@, pos5 as int) == u64_bytes(m.created_at) + option_bytes(m.updated_at));
            assert(tail(b@, pos6 as int) =~= option_bytes(m.updated_at) + Seq::<u8>::empty());
            assert(tail(b@, pos7 as int).len() == 0);
        }
    }
    r
}

impl Record for Client {
    open spec fn key(v: ClientView) -> u64 {
        v.id
    }

    open spec fn encoding(v: ClientView) -> Seq<u8> {
        client_bytes(v)
    }

    fn id(&self) -> (r: u64) {
        self.id
    }

    fn encode(&self) -> (r: Vec<u8>) {
        encode_client(self)
    }

    fn decode(b: &Vec<u8>) -> (r: Option<Self>) {
        decode_client(b)
    }
}

impl Record for Service {
    open spec fn key(v: ServiceView) -> u64 {
        v.id
    }

    open spec fn encoding(v: ServiceView) -> Seq<u8> {
        service_bytes(v)
    }

    fn id(&self) -> (r: u64) {
        self.id
    }

    fn encode(&self) -> (r: Vec<u8>) {
        encode_service(self)
    }

    fn decode(b: &Vec<u8>) -> (r: Option<Self>) {
        decode_service(b)
    }
}

impl Record for Appointment {
    open spec fn key(v: AppointmentView) -> u64 {
        v.id
    }

    open spec fn encoding(v: AppointmentView) -> Seq<u8> {
        appointment_bytes(v)
    }

    fn id(&self) -> (r: u64) {
        self.id
    }

    fn encode(&self) -> (r: Vec<u8>) {
        encode_appointment(self)
    }

    fn decode(b: &Vec<u8>) -> (r: Option<Self>) {
        decode_appointment(b)
    }
}

} // verus!

use omnipaxos_cache::cache::{CacheError, Policy};
use omnipaxos_cache::codec::{StopSign, StoreCommand, TemplateCache, WireEntry};
use omnipaxos_cache::wire::{from_wire_bytes, to_wire_bytes};

fn b(s: &str) -> Vec<u8> {
    s.as_bytes().to_vec()
}

#[test]
fn hit_text_form() {
    let w = WireEntry::Hit { id: 3, index: 12, residual: b("x=5") };
    assert_eq!(to_wire_bytes(&w), Some(b("1*|*12*|*x=5")));
    assert_eq!(from_wire_bytes(3, &b("1*|*12*|*x=5")), Ok(w));
}

#[test]
fn literal_text_form() {
    let w = WireEntry::Literal { id: 4, template: b("SELECT * WHERE id="), residual: b("1") };
    assert_eq!(to_wire_bytes(&w), Some(b("0*|*SELECT * WHERE id=*|*1")));
    assert_eq!(from_wire_bytes(4, &b("0*|*SELECT * WHERE id=*|*1")), Ok(w));
}

#[test]
fn index_zero_and_largest() {
    let w = WireEntry::Hit { id: 0, index: 0, residual: vec![] };
    assert_eq!(to_wire_bytes(&w), Some(b("1*|*0*|*")));
    let m = WireEntry::Hit { id: 0, index: u64::MAX, residual: b("r") };
    let bytes = to_wire_bytes(&m).unwrap();
    assert_eq!(bytes, b("1*|*18446744073709551615*|*r"));
    assert_eq!(from_wire_bytes(0, &bytes), Ok(m));
}

#[test]
fn stop_sign_has_no_text_form() {
    let w = WireEntry::StopSign(StopSign { config_id: 1, nodes: vec![1], metadata: None });
    assert_eq!(to_wire_bytes(&w), None);
}

#[test]
fn malformed_text_forms() {
    for text in [
        "2*|*a*|*b",
        "1*|*abc*|*x",
        "1*|**|*x",
        "0*|*a",
        "0*|*a*|*b*|*c",
        "1*|*18446744073709551616*|*x",
        "01*|*a*|*b",
        "",
        "plain text",
    ] {
        assert_eq!(from_wire_bytes(1, &b(text)), Err(CacheError::MalformedWireEntry), "{}", text);
    }
}

#[test]
fn command_text_round_trip_through_caches() {
    let mut leader = TemplateCache::new(4, Policy::Recency);
    let mut follower = TemplateCache::new(4, Policy::Recency);
    let first = StoreCommand { id: 1, template: b("SELECT * WHERE id="), residual: b("1") };
    let second = StoreCommand { id: 2, template: b("SELECT * WHERE id="), residual: b("2") };
    let t1 = first.clone().encode_text(&mut leader);
    let t2 = second.clone().encode_text(&mut leader);
    assert_eq!(t1, b("0*|*SELECT * WHERE id=*|*1"));
    assert_eq!(t2, b("1*|*0*|*2"));
    assert_eq!(StoreCommand::decode_text(1, &t1, &mut follower), Ok(first));
    assert_eq!(StoreCommand::decode_text(2, &t2, &mut follower), Ok(second));
    assert_eq!(leader.snapshot(), follower.snapshot());
}

#[test]
fn command_text_errors_leave_cache() {
    let mut follower = TemplateCache::new(4, Policy::Recency);
    follower.put(b("t"), b("t"));
    let before = follower.snapshot();
    assert_eq!(StoreCommand::decode_text(1, &b("x*|*t*|*r"), &mut follower), Err(CacheError::MalformedWireEntry));
    assert_eq!(StoreCommand::decode_text(1, &b("1*|*4*|*r"), &mut follower), Err(CacheError::IndexInvalid));
    assert_eq!(follower.snapshot(), before);
}

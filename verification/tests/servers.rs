use protohackers::budget_chat::Member;
use protohackers::budget_chat::format_names;
use protohackers::budget_chat::is_valid_name;
use protohackers::cipher::Cipher;
use protohackers::job::Job;
use protohackers::job::QueueManager;
use protohackers::cipher::Operation;
use protohackers::means;
use protohackers::parse::unescape;
use protohackers::mob::replace_addresses;
use protohackers::pest;
use protohackers::pest::models::CreatePolicy;
use protohackers::pest::models::DialAuthority;
use protohackers::pest::models::Hello;
use protohackers::pest::models::VisitPopulation;
use protohackers::pest::models::SiteVisit;
use protohackers::pest::site::Policy;
use protohackers::pest::site::PolicyAction;
use protohackers::pest::site::PolicyStep;
use protohackers::pest::site::Target;
use protohackers::pest::site::policy_step;
use protohackers::pest::site::recommended_action;
use protohackers::prime::PrimeCheck;
use protohackers::speed;
use protohackers::speed::car::Car;
use protohackers::speed::models::Sighting;
use protohackers::speed::serialization::LengthPrefixedString;
use protohackers::speed::serialization::LengthPrefixedVector;

#[test]
fn checksum_mod_255() {
    assert_eq!(pest::checksum::calculate_checksum(&[1, 2, 3]), 0xFF - 6);
    assert_eq!(pest::checksum::calculate_checksum(&[]), 0xFF);
}

#[test]
fn checksum_mod_256_complements_the_sum() {
    assert_eq!(pest::helpers::calculate_checksum(&[1, 2, 3]), 0xFA);
    assert_eq!(pest::helpers::calculate_checksum(&[]), 0);
    // a record followed by its checksum sums to zero
    let body = [0x50u8, 0x19, 0x03];
    let ck = pest::helpers::calculate_checksum(&body);
    let total: u32 = body.iter().map(|b| *b as u32).sum::<u32>() + ck as u32;
    assert_eq!(total % 0x100, 0);
}

fn visit(populations: Vec<VisitPopulation>) -> SiteVisit {
    SiteVisit { site: 1, populations }
}

fn seen(species: &str, count: u32) -> VisitPopulation {
    VisitPopulation { species: String::from(species), count }
}

#[test]
fn visits_with_conflicting_counts_are_invalid() {
    assert!(pest::helpers::is_valid_visit(visit(vec![])));
    assert!(pest::helpers::is_valid_visit(visit(vec![seen("dog", 2), seen("rat", 5)])));
    assert!(pest::helpers::is_valid_visit(visit(vec![seen("dog", 2), seen("dog", 2)])));
    assert!(!pest::helpers::is_valid_visit(visit(vec![seen("dog", 2), seen("dog", 3)])));
}

#[test]
fn pest_hello_round_trips_through_the_frame() {
    let hello = pest::models::Message::Hello(Hello {
        protocol: String::from("pestcontrol"),
        version: 1,
    });
    let wire = pest::write::write_message(&hello).expect("hello is encodable");
    // the classic frame: tag, length 0x19, the protocol string, version, checksum
    assert_eq!(wire[0], 0x50);
    assert_eq!(wire.len(), 0x19);
    assert_eq!(wire[1..5], [0, 0, 0, 0x19]);
    let total: u32 = wire.iter().map(|b| *b as u32).sum();
    assert_eq!(total % 0x100, 0);
    let mut it = pest::read::consume_messages(wire);
    match it.next() {
        Some(Ok(pest::models::Message::Hello(h))) => {
            assert_eq!(h.protocol, "pestcontrol");
            assert_eq!(h.version, 1);
        },
        other => panic!("expected a hello, got {:?}", other),
    }
    assert!(matches!(it.next(), Some(Err(pest::read::PestReadError::UnexpectedEof))));
}

#[test]
fn pest_policy_result_decodes() {
    let wire = vec![0x57, 0, 0, 0, 0x0A, 0, 0, 0, 0x7B, 0x24];
    let mut it = pest::read::consume_messages(wire);
    match it.next() {
        Some(Ok(pest::models::Message::PolicyResult(p))) => assert_eq!(p.policy, 123),
        other => panic!("expected a policy result, got {:?}", other),
    }
}

#[test]
fn pest_bad_checksum_is_invalid() {
    let wire = vec![0x57, 0, 0, 0, 0x0A, 0, 0, 0, 0x7B, 0x25];
    let mut it = pest::read::consume_messages(wire);
    assert!(matches!(it.next(), Some(Err(pest::read::PestReadError::InvalidData))));
}

#[test]
fn pest_writes_dial_and_policies() {
    let dial = pest::models::Message::DialAuthority(DialAuthority { site: 12345 });
    let wire = pest::write::write_message(&dial).expect("encodable");
    assert_eq!(wire, vec![0x53, 0, 0, 0, 0x0A, 0, 0, 0x30, 0x39, 0x3A]);
    let create = pest::models::Message::CreatePolicy(CreatePolicy {
        species: String::from("dog"),
        action: 0xA0,
    });
    let wire = pest::write::write_message(&create).expect("encodable");
    assert_eq!(wire[0], 0x55);
    assert_eq!(wire.len() as u32, u32::from_be_bytes([wire[1], wire[2], wire[3], wire[4]]));
    let total: u32 = wire.iter().map(|b| *b as u32).sum();
    assert_eq!(total % 0x100, 0);
    let okay = pest::models::Message::Okay(pest::models::Okay {});
    assert!(pest::write::write_message(&okay).is_err());
}

#[test]
fn policy_recommendations_follow_the_target_range() {
    let t = Target { min: 10, max: 20 };
    assert_eq!(recommended_action(Some(25), t), PolicyAction::Cull);
    assert_eq!(recommended_action(Some(5), t), PolicyAction::Conserve);
    assert_eq!(recommended_action(Some(15), t), PolicyAction::DoNothing);
    assert_eq!(recommended_action(None, t), PolicyAction::Conserve);
}

#[test]
fn policy_steps_reconcile_with_whats_on_file() {
    let on_file = Policy { id: 9, action: PolicyAction::Cull };
    assert_eq!(policy_step(PolicyAction::Cull, Some(on_file)), PolicyStep::Keep);
    assert_eq!(
        policy_step(PolicyAction::Conserve, Some(on_file)),
        PolicyStep::Replace(9, PolicyAction::Conserve)
    );
    assert_eq!(policy_step(PolicyAction::DoNothing, None), PolicyStep::Keep);
    assert_eq!(
        policy_step(PolicyAction::Cull, None),
        PolicyStep::Create(PolicyAction::Cull)
    );
}

#[test]
fn cipher_spec_parses_and_rejects() {
    let (cipher, consumed) =
        Cipher::new(&vec![0x02, 0x7B, 0x05, 0x00, 0xAA]).expect("a valid spec");
    assert_eq!(cipher.ops, vec![Operation::XorN(0x7B), Operation::AddPos]);
    assert_eq!(consumed, 4);
    assert!(Cipher::new(&vec![0x02, 0x7B]).is_none());
    assert!(Cipher::new(&vec![0x01, 0x03]).is_none());
}

#[test]
fn cipher_reverses_bits() {
    let (mut cipher, _) = Cipher::new(&vec![0x01, 0x00]).expect("a valid spec");
    assert_eq!(cipher.encode_string(&b"ab".to_vec()), vec![0x86, 0x46]);
}

#[test]
fn cipher_xors_with_the_position() {
    let (mut cipher, _) = Cipher::new(&vec![0x03, 0x00]).expect("a valid spec");
    assert_eq!(cipher.encode_string(&b"abc".to_vec()), vec![0x61, 0x63, 0x61]);
}

#[test]
fn cipher_decode_line_undoes_the_encoding() {
    let (mut encoder, _) = Cipher::new(&vec![0x02, 0x7B, 0x00]).expect("a valid spec");
    let wire = encoder.encode_string(&b"hi\nrest".to_vec());
    let (mut decoder, _) = Cipher::new(&vec![0x02, 0x7B, 0x00]).expect("a valid spec");
    let (line, next) = decoder.decode_line(&wire, 0).expect("a full line is there");
    assert_eq!(line, b"hi\n".to_vec());
    assert_eq!(next, 3);
    assert!(decoder.decode_line(&wire, next).is_none());
}

#[test]
fn cipher_redundancy_is_detected() {
    let (mut useless, _) = Cipher::new(&vec![0x02, 0x00, 0x00]).expect("a valid spec");
    assert!(useless.is_redundant());
    let (mut useful, _) = Cipher::new(&vec![0x02, 0x01, 0x00]).expect("a valid spec");
    assert!(!useful.is_redundant());
}

#[test]
fn means_frames_decode_big_endian() {
    let mut it = means::consume_messages(vec![
        0x49, 0, 0, 0x30, 0x39, 0, 0, 0, 0x65, 0x51, 0xFF, 0xFF, 0xFF, 0xFF, 0, 0, 0, 1,
    ]);
    let m1 = it.next().expect("first frame");
    assert_eq!((m1.message_type, m1.a, m1.b), ('I', 12345, 101));
    let m2 = it.next().expect("second frame");
    assert_eq!((m2.message_type, m2.a, m2.b), ('Q', -1, 1));
    assert!(it.next().is_none());
}

#[test]
fn mean_price_over_a_window() {
    let prices = vec![(1, 5), (2, 7), (100, 9)];
    assert_eq!(means::find_mean_price(0, 10, &prices), 6);
    assert_eq!(means::find_mean_price(50, 60, &prices), 0);
    let negatives = vec![(1, -5), (2, -6)];
    assert_eq!(means::find_mean_price(0, 10, &negatives), -5);
}

#[test]
fn primes_by_trial_division() {
    assert!(2i64.is_prime());
    assert!(3i64.is_prime());
    assert!(17i64.is_prime());
    assert!(7919i64.is_prime());
    assert!(!1i64.is_prime());
    assert!(!0i64.is_prime());
    assert!(!15i64.is_prime());
    assert!(!(-7i64).is_prime());
    assert!(!7917i64.is_prime());
}

#[test]
fn names_must_be_alphanumeric_after_trimming() {
    assert!(is_valid_name("bob"));
    assert!(is_valid_name(" bob7 \n"));
    assert!(!is_valid_name(""));
    assert!(!is_valid_name("   \n"));
    assert!(!is_valid_name("bob!"));
    assert!(!is_valid_name("b ob"));
}

#[test]
fn roster_line_joins_names() {
    let members = vec![
        Member { id: 1, name: String::from("alice") },
        Member { id: 2, name: String::from("bob") },
    ];
    assert_eq!(format_names(&members), "* The room contains: alice, bob");
    assert_eq!(format_names(&vec![]), "* The room contains: ");
}

#[test]
fn boguscoin_addresses_are_rewritten() {
    let line = String::from("please pay 7F1u3wSD5RbOHQmupo9nx4TnhQ for the goods\n");
    assert_eq!(
        replace_addresses(line),
        "please pay 7YWHMfk9JZe0LM0g1ZauHuiSxhI for the goods\n"
    );
    let untouched = String::from("nothing to see here\n");
    assert_eq!(replace_addresses(untouched.clone()), untouched);
}

#[test]
fn speed_messages_decode() {
    let mut it = speed::read::consume_messages(vec![
        0x80, 0, 1, 0, 2, 0, 3, 0x20, 2, 0x41, 0x42, 0, 0, 0, 5, 0x81, 2, 0, 1, 0, 2, 0x41,
    ]);
    match it.next() {
        Some(Ok(speed::models::Message::IAmCamera(c))) => {
            assert_eq!((c.road, c.mile, c.limit), (1, 2, 3));
        },
        other => panic!("expected a camera, got {:?}", other),
    }
    match it.next() {
        Some(Ok(speed::models::Message::Plate(p))) => {
            assert_eq!(p.plate, "AB");
            assert_eq!(p.timestamp, 5);
        },
        other => panic!("expected a plate, got {:?}", other),
    }
    match it.next() {
        Some(Ok(speed::models::Message::IAmDispatcher(d))) => {
            // the reader hands roads back newest first
            assert_eq!(d.roads, vec![2, 1]);
        },
        other => panic!("expected a dispatcher, got {:?}", other),
    }
    assert!(matches!(it.next(), Some(Ok(speed::models::Message::Heartbeat(_)))));
    assert!(it.next().is_none());
}

#[test]
fn speed_unknown_tag_is_an_error() {
    let mut it = speed::read::consume_messages(vec![0x99]);
    assert!(matches!(it.next(), Some(Err(speed::read::SpeedReadError::UnknownTag))));
}

#[test]
fn speed_ticket_wire_format() {
    let ticket = speed::models::Ticket {
        plate: String::from("AB"),
        road: 1,
        mile1: 2,
        timestamp1: 3,
        mile2: 4,
        timestamp2: 5,
        speed: 6000,
    };
    assert_eq!(
        speed::write::write_ticket(&ticket),
        vec![0x21, 2, 0x41, 0x42, 0, 1, 0, 2, 0, 0, 0, 3, 0, 4, 0, 0, 0, 5, 0x17, 0x70]
    );
    assert_eq!(speed::write::write_heartbeat(), vec![0x41]);
    assert_eq!(
        speed::write::write_error(&String::from("no")),
        vec![0x20, 2, 0x6E, 0x6F]
    );
}

fn sighting(road: u16, mile: u16, timestamp: u32, limit: u16) -> Sighting {
    Sighting { plate: String::from("AB12"), timestamp, road, mile, limit }
}

#[test]
fn a_fast_pair_of_sightings_earns_a_ticket() {
    let mut car = Car::new(String::from("AB12"));
    car.add_sighting(sighting(1, 0, 0, 60));
    car.add_sighting(sighting(1, 100, 3600, 60));
    let tickets = car.get_infractions();
    assert_eq!(tickets.len(), 1);
    let t = &tickets[0];
    assert_eq!((t.road, t.mile1, t.timestamp1, t.mile2, t.timestamp2), (1, 0, 0, 100, 3600));
    // one hundred miles in one hour, recorded as hundredths
    assert_eq!(t.speed, 10000);
    assert_eq!(t.plate, "AB12");
}

#[test]
fn a_slow_pair_earns_nothing() {
    let mut car = Car::new(String::from("AB12"));
    car.add_sighting(sighting(1, 0, 0, 60));
    car.add_sighting(sighting(1, 30, 3600, 60));
    assert!(car.get_infractions().is_empty());
}

#[test]
fn a_day_is_ticketed_only_once() {
    let mut car = Car::new(String::from("AB12"));
    car.add_sighting(sighting(1, 0, 0, 60));
    car.add_sighting(sighting(1, 100, 3600, 60));
    car.add_sighting(sighting(1, 300, 7200, 60));
    // two infractions on the same day: only the first goes out
    let outstanding = car.get_outstanding_tickets();
    assert_eq!(outstanding.len(), 1);
    car.mark_ticket_dispatched(&outstanding[0]);
    assert!(car.get_outstanding_tickets().is_empty());
}

#[test]
fn sightings_arrive_out_of_order() {
    let mut car = Car::new(String::from("AB12"));
    car.add_sighting(sighting(1, 100, 3600, 60));
    car.add_sighting(sighting(1, 0, 0, 60));
    let tickets = car.get_infractions();
    assert_eq!(tickets.len(), 1);
    assert_eq!(tickets[0].timestamp1, 0);
    assert_eq!(tickets[0].timestamp2, 3600);
}

#[test]
fn length_prefixed_fields_deserialize() {
    let (s, end) = LengthPrefixedString::deserialize(&vec![3, 0x61, 0x62, 0x63, 9], 0)
        .expect("a whole string");
    assert_eq!(s.0, "abc");
    assert_eq!(end, 4);
    assert!(LengthPrefixedString::deserialize(&vec![5, 0x61], 0).is_none());
    let (v, end) = LengthPrefixedVector::deserialize(&vec![2, 0, 7, 0, 9], 0)
        .expect("a whole vector");
    assert_eq!(v.0, vec![7, 9]);
    assert_eq!(end, 5);
}

#[test]
fn serialization_iterator_decodes_a_ticket() {
    let wire = vec![
        0x21, 2, 0x41, 0x42, 0, 1, 0, 2, 0, 0, 0, 3, 0, 4, 0, 0, 0, 5, 0x17, 0x70,
    ];
    let mut it = speed::serialization::consume_messages(wire);
    match it.next() {
        Some(Ok(speed::serialization::Message::Ticket(t))) => {
            assert_eq!(t.plate.0, "AB");
            assert_eq!((t.road, t.mile1, t.timestamp1, t.mile2, t.timestamp2), (1, 2, 3, 4, 5));
            assert_eq!(t.speed, 6000);
        },
        other => panic!("expected a ticket, got {:?}", other),
    }
    assert!(it.next().is_none());
}

#[test]
fn serialized_strings_carry_their_length() {
    let s = LengthPrefixedString(String::from("abc"));
    assert_eq!(s.serialize(), vec![3, 0x61, 0x62, 0x63]);
}

#[test]
fn jobs_queue_in_rising_priority_order() {
    let mut qm = QueueManager::new();
    assert_eq!(qm.add_job(String::from("q"), String::from("{}"), 5, 1), 1);
    qm.add_job(String::from("q"), String::from("{}"), 9, 2);
    qm.add_job(String::from("q"), String::from("{}"), 1, 3);
    // the queue head is the lowest priority
    let j = qm.pop_job(&String::from("q")).expect("the queue is not empty");
    assert_eq!((j.id, j.pri), (3, 1));
    let j = qm.pop_job(&String::from("q")).expect("two jobs left");
    assert_eq!((j.id, j.pri), (1, 5));
}

#[test]
fn best_job_prefers_priority_then_later_queue() {
    let mut qm = QueueManager::new();
    qm.add_job(String::from("a"), String::from("{}"), 3, 1);
    qm.add_job(String::from("b"), String::from("{}"), 7, 2);
    qm.add_job(String::from("c"), String::from("{}"), 7, 3);
    let ids = vec![String::from("a"), String::from("b"), String::from("c")];
    let j = qm.get_highest_priority_job(&ids).expect("jobs are queued");
    // seven beats three, and the later listed queue wins the tie
    assert_eq!(j.id, 3);
    assert!(qm.get_highest_priority_job(&vec![String::from("empty")]).is_none());
}

#[test]
fn deleted_jobs_stay_gone() {
    let mut qm = QueueManager::new();
    qm.add_job(String::from("q"), String::from("{}"), 5, 7);
    assert_eq!(qm.delete_job(7), "ok");
    assert_eq!(qm.delete_job(7), "no-job");
    let back = Job { id: 7, queue_id: String::from("q"), pri: 5, job: String::from("{}") };
    assert_eq!(qm.abort_job(back), "no-job");
}

#[test]
fn unescape_keeps_a_lone_trailing_backslash() {
    assert_eq!(unescape(String::from("a\\")), String::from("a\\"));
}

#[test]
fn serialization_decodes_heartbeat_requests_and_errors() {
    let mut it = speed::serialization::consume_messages(vec![0x40, 0, 0, 0, 9, 0x10, 2, 0x68, 0x69]);
    match it.next() {
        Some(Ok(speed::serialization::Message::WantHeartbeat(w))) => assert_eq!(w.interval, 9),
        other => panic!("expected a heartbeat request, got {:?}", other),
    }
    match it.next() {
        Some(Ok(speed::serialization::Message::ClientError(e))) => assert_eq!(e.message.0, "hi"),
        other => panic!("expected an error report, got {:?}", other),
    }
    assert!(it.next().is_none());
    let mut cut = speed::serialization::consume_messages(vec![0x20, 5, 0x61]);
    assert!(matches!(cut.next(), Some(Err(_))));
}

#[test]
fn speed_reader_rejects_text_that_is_not_utf8() {
    let mut it = speed::read::consume_messages(vec![0x20, 1, 0xFF, 0, 0, 0, 1]);
    assert!(it.next().is_none());
    // nothing was consumed
    assert_eq!(it.pos, 0);
}

#[test]
fn pest_reader_waits_for_a_whole_record() {
    let mut it = pest::read::consume_messages(vec![0x50, 0, 0]);
    assert!(it.next().is_none());
    assert_eq!(it.pos, 0);
}

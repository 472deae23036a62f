use dns_resolver::{
    encode_dns_name, reverse_query_name, Class, DNSPacket, DNSResolver, Decision, DnsError, Ipv4,
    QueryMode, ResolutionCache, Session,
};

/// Appends one resource record to a reply under construction.
fn push_record(buf: &mut Vec<u8>, name: &str, type_code: u16, data: &[u8]) {
    buf.extend_from_slice(&encode_dns_name(name).unwrap());
    buf.extend_from_slice(&type_code.to_be_bytes());
    buf.extend_from_slice(&[0, 1]); // class IN
    buf.extend_from_slice(&[0, 0, 0, 60]); // ttl
    buf.extend_from_slice(&(data.len() as u16).to_be_bytes());
    buf.extend_from_slice(data);
}

/// Builds a reply with the given answer, authority and additional records.
fn build_reply(
    answers: &[(&str, u16, Vec<u8>)],
    authorities: &[(&str, u16, Vec<u8>)],
    additionals: &[(&str, u16, Vec<u8>)],
) -> Vec<u8> {
    let mut buf: Vec<u8> = Vec::new();
    buf.extend_from_slice(&[0, 0, 0x80, 0]);
    buf.extend_from_slice(&[0, 0]);
    buf.extend_from_slice(&(answers.len() as u16).to_be_bytes());
    buf.extend_from_slice(&(authorities.len() as u16).to_be_bytes());
    buf.extend_from_slice(&(additionals.len() as u16).to_be_bytes());
    for (n, t, d) in answers.iter().chain(authorities).chain(additionals) {
        push_record(&mut buf, n, *t, d);
    }
    buf
}

fn a_record(name: &str, ip: [u8; 4]) -> (&str, u16, Vec<u8>) {
    (name, 1, ip.to_vec())
}

fn ns_record<'a>(name: &'a str, host: &str) -> (&'a str, u16, Vec<u8>) {
    (name, 2, encode_dns_name(host).unwrap())
}

fn ptr_record<'a>(name: &'a str, host: &str) -> (&'a str, u16, Vec<u8>) {
    (name, 12, encode_dns_name(host).unwrap())
}

enum Outcome {
    Addr(Ipv4),
    Name(String),
}

/// Drives one session to completion against a fake transport. The
/// transport sees the target address and the query's question name, and
/// returns raw reply bytes. `log` collects each (target, question) pair.
fn run_session(
    session: &mut Session,
    root: Ipv4,
    transport: &dyn Fn(Ipv4, &str) -> Vec<u8>,
    log: &mut Vec<(Ipv4, String)>,
) -> Result<Outcome, DnsError> {
    loop {
        let query =
            DNSResolver::build_query(&session.query_name, session.query_type(), Class::In)?;
        let parsed_query = DNSPacket::parse(&query)?;
        let qname = parsed_query.questions[0].name.clone();
        log.push((session.target, qname.clone()));
        let reply_bytes = transport(session.target, &qname);
        let reply = DNSPacket::parse(&reply_bytes)?;
        match session.on_reply(&reply) {
            Decision::Answer(ip) => return Ok(Outcome::Addr(ip)),
            Decision::AnswerName(n) => return Ok(Outcome::Name(n)),
            Decision::NextServer(_) => continue,
            Decision::ResolveNameserver(host) => {
                let mut nested = session.nested_session(host, root);
                match run_session(&mut nested, root, transport, log)? {
                    Outcome::Addr(ip) => session.on_nameserver_resolved(ip),
                    Outcome::Name(_) => return Err(DnsError::NoUsableAnswer),
                }
            },
            Decision::Fail(e) => return Err(e),
        }
    }
}

const ROOT: Ipv4 = Ipv4 { a: 9, b: 9, c: 9, d: 9 };
const GLUE: Ipv4 = Ipv4 { a: 10, b: 0, c: 0, d: 53 };
const FINAL: Ipv4 = Ipv4 { a: 93, b: 184, c: 216, d: 34 };

#[test]
fn test_glue_referral_advances_without_recursion() {
    // The root replies with an authority NS record and matching glue: the
    // resolver must go straight to the glue address and ask there.
    let transport = |target: Ipv4, _q: &str| -> Vec<u8> {
        if target == ROOT {
            build_reply(
                &[],
                &[ns_record("com", "ns1.nic.com")],
                &[a_record("ns1.nic.com", [10, 0, 0, 53])],
            )
        } else {
            build_reply(&[a_record("example.com", [93, 184, 216, 34])], &[], &[])
        }
    };
    let mut log = Vec::new();
    let mut session = Session::start(QueryMode::Forward, "example.com".to_string(), ROOT, 8);
    let got = run_session(&mut session, ROOT, &transport, &mut log).unwrap();
    assert!(matches!(got, Outcome::Addr(ip) if ip == FINAL));
    // Exactly two round trips: the root, then the glue address; the
    // nameserver hostname was never resolved on its own.
    assert_eq!(log.len(), 2);
    assert_eq!(log[0].0, ROOT);
    assert_eq!(log[1].0, GLUE);
    assert_eq!(log[1].1, "example.com");
}

#[test]
fn test_glueless_referral_resolves_nameserver_first() {
    // The root names a nameserver host with no glue: the resolver must
    // resolve that hostname through the same algorithm before continuing.
    let transport = |target: Ipv4, q: &str| -> Vec<u8> {
        if target == ROOT && q == "example.com" {
            build_reply(&[], &[ns_record("com", "ns1.nic.com")], &[])
        } else if target == ROOT && q == "ns1.nic.com" {
            build_reply(&[a_record("ns1.nic.com", [10, 0, 0, 53])], &[], &[])
        } else {
            build_reply(&[a_record("example.com", [93, 184, 216, 34])], &[], &[])
        }
    };
    let mut log = Vec::new();
    let mut session = Session::start(QueryMode::Forward, "example.com".to_string(), ROOT, 8);
    let got = run_session(&mut session, ROOT, &transport, &mut log).unwrap();
    assert!(matches!(got, Outcome::Addr(ip) if ip == FINAL));
    assert_eq!(log.len(), 3);
    assert_eq!(log[1].1, "ns1.nic.com"); // the nested resolution
    assert_eq!(log[2].0, GLUE);
    assert_eq!(log[2].1, "example.com");
}

#[test]
fn test_no_usable_answer() {
    let transport = |_t: Ipv4, _q: &str| build_reply(&[], &[], &[]);
    let mut log = Vec::new();
    let mut session = Session::start(QueryMode::Forward, "example.com".to_string(), ROOT, 8);
    let got = run_session(&mut session, ROOT, &transport, &mut log);
    assert!(matches!(got, Err(DnsError::NoUsableAnswer)));
    assert_eq!(log.len(), 1);
}

#[test]
fn test_referral_loop_hits_hop_limit() {
    // Every reply is a glue referral back to the same server: the walk
    // must stop with TooManyHops instead of spinning forever.
    let transport = |_t: Ipv4, _q: &str| {
        build_reply(
            &[],
            &[ns_record("com", "ns1.nic.com")],
            &[a_record("ns1.nic.com", [10, 0, 0, 53])],
        )
    };
    let mut log = Vec::new();
    let mut session = Session::start(QueryMode::Forward, "example.com".to_string(), ROOT, 8);
    let got = run_session(&mut session, ROOT, &transport, &mut log);
    assert!(matches!(got, Err(DnsError::TooManyHops)));
    assert!(log.len() <= 20);
}

#[test]
fn test_glueless_loop_hits_depth_limit() {
    // Every reply demands another nameserver-hostname resolution: the
    // nesting must stop with DelegationTooDeep.
    let transport = |_t: Ipv4, _q: &str| build_reply(&[], &[ns_record("com", "ns1.nic.com")], &[]);
    let mut log = Vec::new();
    let mut session = Session::start(QueryMode::Forward, "example.com".to_string(), ROOT, 8);
    let got = run_session(&mut session, ROOT, &transport, &mut log);
    assert!(matches!(got, Err(DnsError::DelegationTooDeep)));
}

#[test]
fn test_reverse_resolution() {
    let addr = Ipv4::new(93, 184, 216, 34);
    let qname = reverse_query_name(&addr);
    assert_eq!(qname, "34.216.184.93.in-addr.arpa");
    let transport = move |target: Ipv4, q: &str| -> Vec<u8> {
        if target == ROOT {
            build_reply(
                &[],
                &[ns_record("in-addr.arpa", "ns1.nic.com")],
                &[a_record("ns1.nic.com", [10, 0, 0, 53])],
            )
        } else {
            assert_eq!(q, "34.216.184.93.in-addr.arpa");
            build_reply(&[ptr_record(q, "example.com")], &[], &[])
        }
    };
    let mut log = Vec::new();
    let mut session = Session::start(QueryMode::Reverse, qname, ROOT, 8);
    let got = run_session(&mut session, ROOT, &transport, &mut log).unwrap();
    assert!(matches!(got, Outcome::Name(n) if n == "example.com"));
}

#[test]
fn test_unsupported_class_is_hard_error() {
    // A record in a foreign class: the whole reply is rejected.
    let mut buf: Vec<u8> = vec![0, 0, 0x80, 0, 0, 0, 0, 1, 0, 0, 0, 0];
    buf.extend_from_slice(&encode_dns_name("example.com").unwrap());
    buf.extend_from_slice(&[0, 1, 0, 3]); // type A, class 3
    buf.extend_from_slice(&[0, 0, 0, 60, 0, 4, 1, 2, 3, 4]);
    assert_eq!(DNSPacket::parse(&buf).unwrap_err(), DnsError::UnsupportedClass);
}

#[test]
fn test_unknown_record_type_degrades_to_opaque() {
    // A record of an unrecognised type parses as an opaque payload and
    // carries none of the three resolution signals.
    let reply = build_reply(&[("example.com", 99, vec![1, 2, 3])], &[], &[]);
    let packet = DNSPacket::parse(&reply).unwrap();
    let mut session = Session::start(QueryMode::Forward, "example.com".to_string(), ROOT, 8);
    assert!(matches!(session.on_reply(&packet), Decision::Fail(DnsError::NoUsableAnswer)));
}

#[test]
fn test_cache_hit_skips_network() {
    // Two consecutive resolutions of one name within the time-to-live
    // cost one network walk in total.
    let transport = |_t: Ipv4, _q: &str| {
        build_reply(&[a_record("example.com", [93, 184, 216, 34])], &[], &[])
    };
    let mut cache = ResolutionCache::new();
    let mut log = Vec::new();
    let mut total = 0usize;
    for _ in 0..2 {
        let name = "example.com".to_string();
        let now = 100u64;
        let ip = match cache.get_forward(&name, now) {
            Some(ip) => ip,
            None => {
                let mut session = Session::start(QueryMode::Forward, name.clone(), ROOT, 8);
                match run_session(&mut session, ROOT, &transport, &mut log).unwrap() {
                    Outcome::Addr(ip) => {
                        cache.insert_forward(name, ip, now);
                        ip
                    },
                    Outcome::Name(_) => panic!("expected an address"),
                }
            },
        };
        assert_eq!(ip, FINAL);
        total = log.len();
    }
    assert_eq!(total, 1);
}

#[test]
fn test_cache_entry_expires() {
    let mut cache = ResolutionCache::new();
    let name = "example.com".to_string();
    cache.insert_forward(name.clone(), FINAL, 1000);
    assert_eq!(cache.get_forward(&name, 1000), Some(FINAL));
    assert_eq!(cache.get_forward(&name, 4599), Some(FINAL));
    assert_eq!(cache.get_forward(&name, 4600), None);
}

#[test]
fn test_cache_reverse_direction() {
    let mut cache = ResolutionCache::new();
    cache.insert_reverse(FINAL, "example.com".to_string(), 0);
    assert_eq!(cache.get_reverse(&FINAL, 10), Some("example.com".to_string()));
    assert_eq!(cache.get_reverse(&GLUE, 10), None);
}

#[test]
fn test_cache_capacity_eviction() {
    let mut cache = ResolutionCache::new();
    for i in 0..1001u32 {
        cache.insert_forward(format!("host{}.example", i), FINAL, 0);
    }
    // The oldest entry was evicted once the ceiling was reached.
    assert_eq!(cache.get_forward(&"host0.example".to_string(), 1), None);
    assert_eq!(cache.get_forward(&"host1.example".to_string(), 1), Some(FINAL));
    assert_eq!(cache.get_forward(&"host1000.example".to_string(), 1), Some(FINAL));
}

#[test]
fn test_cache_insert_replaces_same_key() {
    let mut cache = ResolutionCache::new();
    cache.insert_forward("example.com".to_string(), GLUE, 0);
    cache.insert_forward("example.com".to_string(), FINAL, 5);
    assert_eq!(cache.get_forward(&"example.com".to_string(), 10), Some(FINAL));
}

#[test]
fn test_resolver_new_parses_root_hint() {
    let resolver = DNSResolver::new("198.41.0.4");
    assert_eq!(resolver.root_hint(), Ipv4::new(198, 41, 0, 4));
    let session = resolver.start_session(QueryMode::Forward, "example.com".to_string());
    assert_eq!(session.target, Ipv4::new(198, 41, 0, 4));
}

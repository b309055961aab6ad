use cfscanner::ip_loader;
use cfscanner::ip_loader::{AddressLists, Ip, IpSet, LoadError, Network};
use std::collections::HashSet;

fn v4(a: u8, b: u8, c: u8, d: u8) -> u32 {
    u32::from_be_bytes([a, b, c, d])
}

fn lists(ipv4: &str, ipv6: &str) -> AddressLists {
    AddressLists {
        ipv4: ipv4.to_string(),
        ipv6: ipv6.to_string(),
    }
}

fn key(ip: &Ip) -> (bool, u128) {
    match ip {
        Ip::V4(a) => (false, *a as u128),
        Ip::V6(a) => (true, *a),
    }
}

fn distinct(ips: &[Ip]) -> usize {
    ips.iter().map(key).collect::<HashSet<_>>().len()
}

#[test]
fn networks_are_read() {
    let text = "# comment\n\n 104.16.0.0/13 \nnonsense\n1.2.3.4\n10.0.0.77/24\r\n";
    let nets = ip_loader::parse_networks(text);
    assert_eq!(
        nets,
        vec![
            Network::V4 { address: v4(104, 16, 0, 0), prefix: 13 },
            Network::V4 { address: v4(1, 2, 3, 4), prefix: 32 },
            Network::V4 { address: v4(10, 0, 0, 77), prefix: 24 },
        ]
    );
    let six = ip_loader::parse_networks("2606:4700::/32\n::1\n1.2.3.4/33\n");
    assert_eq!(
        six,
        vec![
            Network::V6 { address: 0x2606_4700u128 << 96, prefix: 32 },
            Network::V6 { address: 1, prefix: 128 },
        ]
    );
}

#[test]
fn offsets_count_from_the_lowest_address() {
    let net = Network::V4 { address: v4(10, 0, 0, 77), prefix: 24 };
    assert_eq!(ip_loader::address_at(&net, 0), Ip::V4(v4(10, 0, 0, 0)));
    assert_eq!(ip_loader::address_at(&net, 255), Ip::V4(v4(10, 0, 0, 255)));
    let six = Network::V6 { address: (0x2606u128 << 112) + 99, prefix: 64 };
    assert_eq!(
        ip_loader::address_at(&six, 5),
        Ip::V6((0x2606u128 << 112) + 5)
    );
}

#[test]
fn small_network_is_taken_whole() {
    let net = Network::V4 { address: v4(10, 0, 0, 6), prefix: 29 };
    let mut exclude = IpSet::new();
    exclude.insert(Ip::V4(v4(10, 0, 0, 3)));
    let mut out = vec![Ip::V6(9)];
    ip_loader::sample_from_network_excluding(&net, 8, &mut out, &exclude);
    let wanted: Vec<Ip> = [9u32, 0, 1, 2, 4, 5, 6, 7]
        .iter()
        .enumerate()
        .map(|(i, n)| if i == 0 { Ip::V6(9) } else { Ip::V4(v4(10, 0, 0, 0) + n) })
        .collect();
    assert_eq!(out, wanted);
}

#[test]
fn large_network_is_sampled() {
    let net = Network::V4 { address: v4(104, 16, 0, 0), prefix: 13 };
    let mut out = Vec::new();
    ip_loader::sample_from_network_excluding(&net, 50, &mut out, &IpSet::new());
    assert_eq!(out.len(), 50);
    assert_eq!(distinct(&out), 50);
    for ip in &out {
        match ip {
            Ip::V4(a) => assert_eq!(a >> 19, v4(104, 16, 0, 0) >> 19),
            Ip::V6(_) => panic!(),
        }
    }
    let six = Network::V6 { address: 0x2606_4700u128 << 96, prefix: 32 };
    let mut out = Vec::new();
    ip_loader::sample_from_network_excluding(&six, 20, &mut out, &IpSet::new());
    assert_eq!(distinct(&out), 20);
    for ip in &out {
        match ip {
            Ip::V6(a) => assert_eq!(a >> 96, 0x2606_4700),
            Ip::V4(_) => panic!(),
        }
    }
}

#[test]
fn all_ipv6_addresses_can_be_sampled() {
    let mut out = Vec::new();
    let net = Network::V6 { address: 7, prefix: 0 };
    ip_loader::sample_from_network_excluding(&net, 10, &mut out, &IpSet::new());
    assert_eq!(distinct(&out), 10);
}

#[test]
fn excluded_addresses_do_not_come() {
    let l = lists("10.0.0.0/30\n10.0.1.0/30\n", "");
    let mut scanned = IpSet::new();
    let mut seen = Vec::new();
    for _ in 0..20 {
        let ips = ip_loader::load_ips_excluding("ipv4", Some(4), &scanned, &l).unwrap();
        assert!(ips.len() <= 4);
        for ip in ips {
            assert!(!scanned.contains(ip));
            scanned.insert(ip);
            seen.push(ip);
        }
    }
    assert_eq!(distinct(&seen), seen.len());
    assert!(seen.len() <= 8);
    let rest = ip_loader::load_ips_excluding("ipv4", Some(8), &scanned, &l).unwrap();
    assert_eq!(rest.len() + seen.len(), 8);
}

#[test]
fn shares_are_rounded_up() {
    let l = lists("10.0.0.0/24\n10.0.1.0/24\n10.0.2.0/24\n", "");
    let ips = ip_loader::load_ips("ipv4", Some(10), &l).unwrap();
    assert!(ips.len() <= 10);
    for third in 0..3u32 {
        let n = ips
            .iter()
            .filter(|ip| matches!(ip, Ip::V4(a) if (a >> 8) & 255 == third))
            .count();
        assert!(n <= 4, "{}", n);
    }
}

#[test]
fn modes_choose_the_lists() {
    let l = lists("10.0.0.0/31", "::8/127");
    let four = ip_loader::load_ips("ipv4", None, &l).unwrap();
    assert!(four.iter().all(|ip| matches!(ip, Ip::V4(_))));
    assert_eq!(distinct(&four), 2);
    let six = ip_loader::load_ips("ipv6", None, &l).unwrap();
    assert!(six.iter().all(|ip| matches!(ip, Ip::V6(a) if *a == 8 || *a == 9)));
    let both = ip_loader::load_ips("both", Some(4), &l).unwrap();
    assert!(both.len() <= 4 && both.contains(&Ip::V4(v4(10, 0, 0, 0))));
}

#[test]
fn loading_fails_as_it_should() {
    let l = lists("0.0.0.0/0", "");
    match ip_loader::load_ips("tcp", None, &l) {
        Err(e @ LoadError::UnknownMode(_)) => assert_eq!(e.message(), "未知 mode: tcp"),
        other => panic!("{:?}", other),
    }
    match ip_loader::load_ips("ipv4", None, &l) {
        Err(e @ LoadError::WholeAddressSpace) => {
            assert_eq!(e.message(), "IPv4 网段前缀长度不能为 0")
        }
        other => panic!("{:?}", other),
    }
    assert!(ip_loader::load_ips("ipv6", None, &l).unwrap().is_empty());
    assert!(ip_loader::load_ips("ipv4", Some(0), &l).unwrap().is_empty());
}

#[test]
fn samples_are_shuffled() {
    let l = lists("10.0.0.0/24", "");
    let ips = ip_loader::load_ips("ipv4", Some(256), &l).unwrap();
    assert_eq!(ips.len(), 256);
    let ascending: Vec<Ip> = (0..256u32).map(|i| Ip::V4(v4(10, 0, 0, 0) + i)).collect();
    assert_ne!(ips, ascending);
    assert_eq!(distinct(&ips), 256);
}

#[test]
fn colo_names_are_read() {
    let map = ip_loader::load_colo_map("hkg: 香港 \n\n  lax : 洛杉矶:US\nNRT\nhkg:HK\nstraße:x\n");
    assert_eq!(map.get("HKG").map(String::as_str), Some("HK"));
    assert_eq!(map.get("LAX").map(String::as_str), Some("洛杉矶:US"));
    assert_eq!(map.get("STRASSE").map(String::as_str), Some("x"));
    assert!(map.get("NRT").is_none());
    assert!(map.get("hkg").is_none());
}

#[test]
fn invalid_lines_are_reported() {
    let text = "# comment\n\n 104.16.0.0/13 \n nonsense \n1.2.3.4/33\n";
    assert_eq!(ip_loader::skipped_lines(text), ["nonsense", "1.2.3.4/33"]);
    let l = lists("x\n1.1.1.1", "y");
    assert_eq!(ip_loader::skipped_entries("ipv4", &l), ["x"]);
    assert_eq!(ip_loader::skipped_entries("ipv6", &l), ["y"]);
    assert_eq!(ip_loader::skipped_entries("both", &l), ["x", "y"]);
    assert!(ip_loader::skipped_entries("tcp", &l).is_empty());
}

#[test]
fn disjoint_networks_give_no_address_twice() {
    let l = lists("10.0.0.0/24\n10.0.1.0/24\n", "::/120\n");
    let ips = ip_loader::load_ips("both", Some(300), &l).unwrap();
    assert_eq!(distinct(&ips), ips.len());
    for third in 0..2u32 {
        let n = ips
            .iter()
            .filter(|ip| matches!(ip, Ip::V4(a) if (a >> 8) & 255 == third))
            .count();
        assert!(n <= 100, "{}", n);
    }
}

#[test]
fn whole_address_space_is_refused_only_when_reached() {
    let all = Network::V4 { address: 0, prefix: 0 };
    let small = Network::V4 { address: v4(10, 0, 0, 0), prefix: 30 };
    let none = IpSet::new();
    assert_eq!(
        ip_loader::sample_in_order(&vec![small, all], 4, 4, &none).unwrap().len(),
        4
    );
    assert!(ip_loader::sample_in_order(&vec![small, all], 4, 5, &none).is_none());
    assert!(ip_loader::sample_in_order(&vec![all, small], 4, 4, &none).is_none());
    assert!(ip_loader::sample_in_order(&vec![all, small], 4, 0, &none).unwrap().is_empty());
    let l = lists("10.0.0.0/31\n0.0.0.0/0\n", "");
    let mut seen = (false, false);
    for _ in 0..200 {
        match ip_loader::load_ips("ipv4", Some(1), &l) {
            Ok(ips) => {
                assert_eq!(ips.len(), 1);
                seen.0 = true;
            }
            Err(LoadError::WholeAddressSpace) => seen.1 = true,
            other => panic!("{:?}", other),
        }
    }
    assert_eq!(seen, (true, true));
}

#[test]
fn large_takes_still_exhaust_small_networks() {
    if usize::BITS < 64 {
        return;
    }
    let net = Network::V4 { address: v4(10, 0, 0, 0), prefix: 31 };
    let mut out = Vec::new();
    ip_loader::sample_from_network_excluding(&net, 1 << 32, &mut out, &IpSet::new());
    assert_eq!(out, vec![Ip::V4(v4(10, 0, 0, 0)), Ip::V4(v4(10, 0, 0, 1))]);
}

#[test]
fn names_are_kept_by_given_codes() {
    let e = |c: &str, n: &str| (c.to_string(), n.to_string());
    let map = ip_loader::colo_map_from(vec![e("A", "1"), e("B", "2"), e("A", "3")]);
    assert_eq!(map.get("A").map(String::as_str), Some("3"));
    assert_eq!(map.get("B").map(String::as_str), Some("2"));
    assert!(map.get("C").is_none());
}

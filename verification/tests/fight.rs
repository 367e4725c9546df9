use lol_engine::fight::{check_rank_order, driver_for, kind_of, no_driver, rank_of, DriverId, Kind, Kit, DRIVERS};

fn all_kinds() -> Vec<Kind> {
    let mut v = vec![Kind::Attack, Kind::ECharge, Kind::ERelease, Kind::Mal, Kind::Q, Kind::R, Kind::Ss, Kind::WTick];
    for i in [0usize, 1, 2, 7, 8, 100, 0xFFFF] {
        v.push(Kind::Burn(i));
    }
    v
}

#[test]
fn rank_values() {
    assert_eq!(rank_of(Kind::Attack), 0);
    assert_eq!(rank_of(Kind::Burn(3)), 0x1_0003);
    assert_eq!(rank_of(Kind::Burn(0xFFFF)), 0x1_FFFF);
    assert_eq!(rank_of(Kind::ECharge), 0x2_0000);
    assert_eq!(rank_of(Kind::ERelease), 0x3_0000);
    assert_eq!(rank_of(Kind::Mal), 0x4_0000);
    assert_eq!(rank_of(Kind::Q), 0x5_0000);
    assert_eq!(rank_of(Kind::R), 0x6_0000);
    assert_eq!(rank_of(Kind::Ss), 0x7_0000);
    assert_eq!(rank_of(Kind::WTick), 0x8_0000);
}

#[test]
fn kind_of_values() {
    assert_eq!(kind_of(0), Kind::Attack);
    assert_eq!(kind_of(0x1_0005), Kind::Burn(5));
    assert_eq!(kind_of(0x4_0000), Kind::Mal);
    assert_eq!(kind_of(0x7_0000), Kind::Ss);
    // anything past `Ss` reads as `WTick`
    assert_eq!(kind_of(0x8_0000), Kind::WTick);
    assert_eq!(kind_of(0x9_1234), Kind::WTick);
    assert_eq!(kind_of(u32::MAX), Kind::WTick);
}

#[test]
fn rank_round_trips() {
    for k in all_kinds() {
        assert_eq!(kind_of(rank_of(k)), k);
    }
}

#[test]
fn rank_orders_as_kind() {
    let all = all_kinds();
    for &a in &all {
        for &b in &all {
            assert_eq!(rank_of(a) < rank_of(b), a < b, "{a:?} < {b:?}");
            assert_eq!(rank_of(a) == rank_of(b), a == b, "{a:?} == {b:?}");
        }
    }
}

#[test]
fn rank_order_check_passes() {
    assert!(check_rank_order());
}

#[test]
fn no_driver_message() {
    let kit = Kit { champion: "Ahri".to_string(), driver: None };
    assert_eq!(
        no_driver(&kit),
        "no engine driver for 'Ahri' \u{2014} a kit encoding needs matching rotation logic in engine/src/drivers.rs"
    );
}

#[test]
fn driver_pick() {
    let kayle = Kit { champion: "Kayle".to_string(), driver: Some(DriverId::Kayle) };
    assert_eq!(driver_for(&kayle), Ok(DriverId::Kayle));
    let vlad = Kit { champion: "Vladimir".to_string(), driver: Some(DriverId::Vladimir) };
    assert_eq!(driver_for(&vlad), Ok(DriverId::Vladimir));
    let none = Kit { champion: "Zed".to_string(), driver: None };
    assert_eq!(driver_for(&none), Err(no_driver(&none)));
    assert_eq!(DRIVERS, ["kayle", "vladimir"]);
}

use common::map::{CountryKind, TileKind};
use common::officer::{OfficerKind, PowerKind, VisionModifier};
use common::unit::UnitKind;
use common::UnitState;

#[test]
fn only_forest_and_reef_hide_units() {
    let tiles = vec![
        (TileKind::Plain, false),
        (TileKind::Mountain, false),
        (TileKind::Forest, true),
        (TileKind::River, false),
        (TileKind::Road, false),
        (TileKind::Bridge, false),
        (TileKind::Sea, false),
        (TileKind::Shoal, false),
        (TileKind::Reef, true),
        (TileKind::City, false),
        (TileKind::Base, false),
        (TileKind::Airport, false),
        (TileKind::Harbour, false),
        (TileKind::HeadQuarters, false),
        (TileKind::Pipe, false),
        (TileKind::Silo, false),
        (TileKind::CommunicationsTower, false),
        (TileKind::Laboratory, false),
    ];
    for (tile, hidden) in tiles {
        assert_eq!(hidden, tile.hides_units());
    }
}

#[test]
fn base_vision_of_every_unit_kind() {
    let kinds = vec![
        (UnitKind::AntiAir, 2),
        (UnitKind::Apc, 1),
        (UnitKind::Artillery, 1),
        (UnitKind::BattleCopter, 3),
        (UnitKind::BattleShip, 2),
        (UnitKind::BlackBoat, 1),
        (UnitKind::BlackBomb, 1),
        (UnitKind::Bomber, 2),
        (UnitKind::Carrier, 4),
        (UnitKind::Cruiser, 3),
        (UnitKind::Fighter, 2),
        (UnitKind::Infantry, 2),
        (UnitKind::Lander, 1),
        (UnitKind::MediumTank, 1),
        (UnitKind::Mech, 2),
        (UnitKind::MegaTank, 1),
        (UnitKind::Missile, 5),
        (UnitKind::NeoTank, 1),
        (UnitKind::PipeRunner, 4),
        (UnitKind::Recon, 5),
        (UnitKind::Rocket, 1),
        (UnitKind::Stealth, 4),
        (UnitKind::Submarine, 5),
        (UnitKind::TransportCopter, 2),
        (UnitKind::Tank, 3),
    ];
    for (kind, range) in kinds {
        assert_eq!(range, kind.vision());
    }
}

#[test]
fn sonja_adds_to_sight_by_power() {
    assert_eq!(
        VisionModifier { bonus: 2, sees_through_cover: true },
        OfficerKind::Sonja.vision_modifier(&PowerKind::Super)
    );
    assert_eq!(
        VisionModifier { bonus: 2, sees_through_cover: true },
        OfficerKind::Sonja.vision_modifier(&PowerKind::Normal)
    );
    assert_eq!(
        VisionModifier { bonus: 1, sees_through_cover: false },
        OfficerKind::Sonja.vision_modifier(&PowerKind::NoPower)
    );
}

#[test]
fn other_officers_add_nothing_to_sight() {
    let officers = vec![
        OfficerKind::Andy,
        OfficerKind::Hachi,
        OfficerKind::Jake,
        OfficerKind::Max,
        OfficerKind::Nell,
        OfficerKind::Rachel,
        OfficerKind::Sami,
        OfficerKind::Colin,
        OfficerKind::Grit,
        OfficerKind::Olaf,
        OfficerKind::Sasha,
        OfficerKind::Drake,
        OfficerKind::Eagle,
        OfficerKind::Javier,
        OfficerKind::Jess,
        OfficerKind::Grimm,
        OfficerKind::Kanbei,
        OfficerKind::Sensei,
        OfficerKind::Adder,
        OfficerKind::Flak,
        OfficerKind::Hawke,
        OfficerKind::Jugger,
        OfficerKind::Kindle,
        OfficerKind::Koal,
        OfficerKind::Lash,
        OfficerKind::Sturm,
        OfficerKind::VonBolt,
    ];
    for officer in officers {
        for power in [PowerKind::NoPower, PowerKind::Normal, PowerKind::Super] {
            assert_eq!(
                VisionModifier { bonus: 0, sees_through_cover: false },
                officer.vision_modifier(&power)
            );
        }
    }
}

#[test]
fn unit_state_keeps_what_it_is_given() {
    let unit = UnitState::new(3, true, UnitKind::Submarine);

    assert_eq!(3, unit.player);
    assert!(unit.stealthed);
    assert_eq!(UnitKind::Submarine, unit.kind);
    assert_ne!(unit, UnitState::new(3, false, UnitKind::Submarine));
}

#[test]
fn countries_are_told_apart() {
    assert_eq!(CountryKind::OrangeStar, CountryKind::OrangeStar.clone());
    assert_ne!(CountryKind::OrangeStar, CountryKind::BlueMoon);
}

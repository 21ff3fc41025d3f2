use jx_remake::npc::{ActionId, NpcKind, Sex};

#[test]
fn action_codes_match_the_legacy_table() {
    assert_eq!(ActionId::FreeStand1.code(), 0);
    assert_eq!(ActionId::NormalWalk.code(), 7);
    assert_eq!(ActionId::DartThrow.code(), 31);
    assert_eq!(ActionId::SitDown.code(), 36);
    assert_eq!(ActionId::RideStand2.code(), 47);
}

#[test]
fn action_codes_are_distinct_for_distinct_actions() {
    let sample = [
        ActionId::FreeStand1,
        ActionId::FreeWalk,
        ActionId::FreeRun,
        ActionId::FreeWound,
        ActionId::FreeDie,
        ActionId::FreeAttack,
        ActionId::FreeMagic,
        ActionId::JumpFly,
    ];
    for (i, a) in sample.iter().enumerate() {
        for b in sample.iter().skip(i + 1) {
            assert_ne!(a.code(), b.code());
        }
    }
}

#[test]
fn npc_kind_distinguishes_special_characters() {
    let special = NpcKind::Special(Sex::Lady);
    let normal = NpcKind::Normal;
    assert!(matches!(special, NpcKind::Special(Sex::Lady)));
    assert!(matches!(normal, NpcKind::Normal));
}

use snmp_mib_client::settings::{profile_id_for, HostProfile, Settings, SettingsV1};

#[test]
fn loading_a_pre_profiles_settings_file_migrates_its_directories_into_a_default_profile() {
    let legacy = SettingsV1 {
        mib_dirs: vec!["/mibs/one".to_string(), "/mibs/two".to_string()],
        host_profiles: vec![HostProfile {
            id: "h1".to_string(),
            label: "core".to_string(),
            addr: "10.0.0.1".to_string(),
            port: "161".to_string(),
            community: "public".to_string(),
            v3_user: String::new(),
        }],
    };
    let settings = Settings::load_from_parsed(None, Some(legacy));
    assert_eq!(settings.mib_profiles.len(), 1);
    assert_eq!(settings.mib_profiles[0].dirs, vec!["/mibs/one", "/mibs/two"]);
    assert_eq!(settings.active_mib_profile_id, settings.mib_profiles[0].id);
    assert_eq!(settings.host_profiles.len(), 1);
}

#[test]
fn removing_the_active_profile_falls_back_to_a_remaining_one() {
    let mut settings = Settings::default();
    let first_id = settings.mib_profiles[0].id.clone();
    settings.add_mib_profile("v4.0".into());
    let second_id = settings.active_mib_profile_id.clone();
    assert_ne!(first_id, second_id);

    settings.remove_mib_profile(&second_id);

    assert_eq!(settings.mib_profiles.len(), 1);
    assert_eq!(settings.active_mib_profile_id, first_id);
}

#[test]
fn removing_the_last_profile_is_a_no_op() {
    let mut settings = Settings::default();
    let only_id = settings.mib_profiles[0].id.clone();

    settings.remove_mib_profile(&only_id);

    assert_eq!(settings.mib_profiles.len(), 1);
    assert_eq!(settings.mib_profiles[0].id, only_id);
}

#[test]
fn default_settings_hold_one_active_default_profile() {
    let settings = Settings::default();
    assert_eq!(settings.mib_profiles.len(), 1);
    assert_eq!(settings.mib_profiles[0].id, "default");
    assert_eq!(settings.mib_profiles[0].name, "Default");
    assert_eq!(settings.active_profile().map(|p| p.id.clone()), Some("default".to_string()));
}

#[test]
fn added_profile_becomes_active_and_can_be_renamed() {
    let mut settings = Settings::default();
    let id = settings.add_mib_profile("lab".into()).id.clone();
    assert!(id.starts_with("mp"));
    assert_eq!(settings.active_mib_profile_id, id);
    settings.rename_mib_profile(&id, "lab-2".into());
    assert_eq!(settings.active_profile().unwrap().name, "lab-2");
}

#[test]
fn renaming_an_unknown_profile_changes_nothing() {
    let mut settings = Settings::default();
    settings.rename_mib_profile("nope", "x".into());
    assert_eq!(settings.mib_profiles[0].name, "Default");
}

#[test]
fn removing_an_inactive_profile_keeps_the_active_one() {
    let mut settings = Settings::default();
    let second = settings.add_mib_profile("b".into()).id.clone();
    settings.set_active_mib_profile("default".to_string());
    settings.remove_mib_profile(&second);
    assert_eq!(settings.mib_profiles.len(), 1);
    assert_eq!(settings.active_mib_profile_id, "default");
}

#[test]
fn directories_are_added_once_and_removed() {
    let mut settings = Settings::default();
    settings.add_mib_dir("/a".to_string());
    settings.add_mib_dir("/a".to_string());
    settings.add_mib_dir("/b".to_string());
    assert_eq!(settings.mib_profiles[0].dirs, vec!["/a", "/b"]);
    settings.remove_mib_dir("/a");
    assert_eq!(settings.mib_profiles[0].dirs, vec!["/b"]);
}

#[test]
fn active_profile_mut_edits_the_active_profile() {
    let mut settings = Settings::default();
    settings.active_profile_mut().unwrap().dirs.push("/x".to_string());
    assert_eq!(settings.mib_profiles[0].dirs, vec!["/x"]);
}

#[test]
fn a_freshly_added_profile_is_the_one_active_profile_finds() {
    let mut settings = Settings::default();
    let before = settings.mib_profiles.len();
    let id = settings.add_mib_profile("lab".into()).id.clone();
    assert!(id.starts_with("mp"));
    assert_eq!(settings.mib_profiles.len(), before + 1);
    let active = settings.active_profile().unwrap();
    assert_eq!(active.id, id);
    assert_eq!(active.name, "lab");
    assert!(active.dirs.is_empty());
}

#[test]
fn a_profile_id_is_mp_followed_by_the_clock_reading() {
    assert_eq!(profile_id_for(1712345678901), "mp1712345678901");
    assert_eq!(profile_id_for(0), "mp0");
}

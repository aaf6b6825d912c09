use soundbox::profiles::{db_path, new_id, profile_dir, registry_path, ProfileError, Registry};

fn fresh() -> Registry {
    let mut reg = Registry::default();
    let steps = reg.init_registry("p1".to_string(), 100);
    assert!(steps.created);
    reg
}

#[test]
fn init_creates_a_default_profile() {
    let reg = fresh();
    assert_eq!(reg.profiles.len(), 1);
    assert_eq!(reg.active, reg.profiles[0].id);
    assert_eq!(reg.profiles[0].name, "Default");
    assert_eq!(reg.profiles[0].color, "#4ea1ff");
}

#[test]
fn duplicate_names_are_refused() {
    let mut reg = fresh();
    reg.create("Music", "p2".into(), 1).unwrap();
    assert!(reg.create("music", "p3".into(), 1).is_err(), "names compare case-insensitively");
    assert!(reg.create("  ", "p4".into(), 1).is_err());
    assert_eq!(reg.profiles.len(), 2);
}

#[test]
fn deleting_the_active_profile_falls_back_to_another() {
    let mut reg = fresh();
    let other = reg.create("Other", "p2".into(), 1).unwrap();
    reg.switch(&other.id, 5).unwrap();
    let now_active = reg.delete(&other.id).unwrap();
    assert_ne!(now_active, other.id);
    assert_eq!(reg.active, now_active);
}

#[test]
fn the_last_profile_cannot_be_deleted() {
    let mut reg = fresh();
    let active = reg.active.clone();
    assert_eq!(reg.delete(&active), Err(ProfileError::OnlyProfile));
}

#[test]
fn create_trims_colours_and_stamps() {
    let mut reg = fresh();
    let p = reg.create("  Ben's SFX ", "p2".into(), 42).unwrap();
    assert_eq!(p.name, "Ben's SFX");
    assert_eq!(p.color, "#4ade80");
    assert_eq!(p.last_opened, 42);
    assert_eq!(reg.profiles[1], p);
    assert_eq!(
        reg.create("ben's sfx", "p3".into(), 1),
        Err(ProfileError::Duplicate("ben's sfx".into()))
    );
}

#[test]
fn rename_checks_names_and_ids() {
    let mut reg = fresh();
    reg.create("Two", "p2".into(), 1).unwrap();
    assert_eq!(reg.rename("p2", "default"), Err(ProfileError::Duplicate("default".into())));
    assert_eq!(reg.rename("p2", " "), Err(ProfileError::EmptyName));
    assert_eq!(reg.rename("zz", "Three"), Err(ProfileError::NoSuchProfile));
    reg.rename("p2", "TWO").unwrap();
    assert_eq!(reg.get("p2").unwrap().name, "TWO");
    reg.rename("p2", " Three ").unwrap();
    assert_eq!(reg.get("p2").unwrap().name, "Three");
}

#[test]
fn switch_stamps_and_activates() {
    let mut reg = fresh();
    reg.create("Two", "p2".into(), 1).unwrap();
    assert_eq!(reg.switch("nope", 9), Err(ProfileError::NoSuchProfile));
    reg.switch("p2", 9).unwrap();
    assert_eq!(reg.active, "p2");
    assert_eq!(reg.active_profile().unwrap().last_opened, 9);
}

#[test]
fn init_repairs_a_dangling_active_id() {
    let mut reg = fresh();
    reg.create("Two", "p2".into(), 1).unwrap();
    reg.active = "gone".into();
    let steps = reg.init_registry("unused".into(), 3);
    assert!(!steps.created && steps.repaired);
    assert_eq!(reg.active, "p1");
    reg.profiles[0].id = String::new();
    let steps = reg.init_registry("unused".into(), 3);
    assert_eq!(reg.profiles.len(), 1);
    assert!(steps.repaired);
    assert_eq!(reg.active, "p2");
}

#[test]
fn profile_paths() {
    assert_eq!(profile_dir("/base", "abc"), "/base/profiles/abc");
    assert_eq!(db_path("/base", "abc"), "/base/profiles/abc/library.db");
    assert_eq!(registry_path("/base"), "/base/profiles.json");
}

#[test]
fn ids_are_lower_hex() {
    let id = new_id();
    assert!(!id.is_empty());
    assert!(id.chars().all(|c| c.is_ascii_hexdigit() && !c.is_ascii_uppercase()));
}

#[test]
fn error_messages() {
    assert_eq!(ProfileError::Duplicate("x".into()).message(), "a profile called x already exists");
    assert_eq!(ProfileError::OnlyProfile.message(), "cannot delete the only profile");
}

fn active_exists(reg: &Registry) -> bool {
    reg.get(&reg.active).is_some()
}

#[test]
fn the_active_profile_always_exists() {
    let mut reg = fresh();
    assert!(active_exists(&reg));
    reg.create("B", "p2".into(), 1).unwrap();
    assert!(active_exists(&reg));
    reg.create("C", "p3".into(), 2).unwrap();
    reg.switch("p3", 3).unwrap();
    assert!(active_exists(&reg));
    reg.rename("p3", "See").unwrap();
    assert!(active_exists(&reg));
    reg.delete("p1").unwrap();
    assert!(active_exists(&reg));
    assert_eq!(reg.active, "p3");
    reg.delete("p3").unwrap();
    assert!(active_exists(&reg));
    assert_eq!(reg.active, "p2");
    assert!(reg.delete("p2").is_err());
    assert!(active_exists(&reg));
}

#[test]
fn renaming_and_deleting_a_known_profile_succeed() {
    let mut reg = fresh();
    reg.create("Two", "p2".into(), 1).unwrap();
    assert!(reg.rename("p2", "  two  ").is_ok(), "a case-only change of its own name is allowed");
    assert_eq!(reg.get("p2").unwrap().name, "two");
    assert_eq!(reg.delete("p2"), Ok("p1".to_string()));
}

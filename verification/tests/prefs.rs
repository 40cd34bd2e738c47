use famchat_core::prefs::{clear_hub, load, load_with, save_hub, Prefs};

/// A device id is minted on first load and stays put across reloads.
#[test]
fn device_id_is_stable() {
    let (a, minted) = load(None);
    assert!(minted);
    assert_eq!(a.device_id.len(), 32, "128-bit id as 32 hex chars");
    let id = a.device_id.clone();
    let (b, minted) = load(Some(a));
    assert!(!minted);
    assert_eq!(id, b.device_id, "id must survive a reload");
}

/// Saving the hub keeps the device id, and reloading sees the hub — this is the
/// "reinstall and your rooms come back" guarantee.
#[test]
fn hub_persists_and_keeps_identity() {
    let (first, _) = load(None);
    let edited = save_hub(first.clone(), "192.168.1.50:9000", "acorn", "Mom");
    let (again, _) = load(Some(edited));
    assert_eq!(again.device_id, first.device_id, "identity preserved");
    assert_eq!(again.hub_address, "192.168.1.50:9000");
    assert_eq!(again.hub_word, "acorn");
    assert_eq!(again.hub_name, "Mom");
    let cleared = clear_hub(again);
    assert_eq!(cleared.device_id, first.device_id);
    assert_eq!(cleared.hub_address, "");
    assert_eq!(cleared.hub_word, "");
}

#[test]
fn an_id_is_minted_only_where_there_is_none() {
    let (p, minted) = load_with(Some(Prefs::default()), "fresh".into());
    assert!(minted);
    assert_eq!(p.device_id, "fresh");
    let (p, minted) = load_with(Some(p), "other".into());
    assert!(!minted);
    assert_eq!(p.device_id, "fresh");
}

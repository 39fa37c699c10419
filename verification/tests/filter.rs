use usbtop_ng::device::UsbDevice;
use usbtop_ng::filter::{name_matches, FilterExpr, FilterSet};
use usbtop_ng::usbmon::{TransferType, UrbType, UsbPacket};

fn parse(arg: &str) -> FilterSet {
    FilterSet::parse(&[arg.to_string()]).unwrap()
}

fn refusal(arg: &str) -> String {
    FilterSet::parse(&[arg.to_string()]).unwrap_err().message()
}

fn packet(bus: u8, device: u8, endpoint: u8, dir_in: bool, kind: TransferType, bytes: u32) -> UsbPacket {
    UsbPacket {
        urb_type: UrbType::Callback,
        bus_id: bus,
        device_id: device,
        endpoint,
        direction: dir_in,
        transfer_type: Some(kind),
        data_length: bytes,
    }
}

fn device(bus: u8, dev: u8, vid: Option<u16>, product: Option<&str>) -> UsbDevice {
    let mut d = UsbDevice::new(bus, dev, 0);
    d.vendor_id = vid;
    d.product = product.map(str::to_string);
    d
}

#[test]
fn parses_every_key() {
    let set = FilterSet::parse(&["bus=1,dev=4,vid=04f2,pid=b71a,ep=1,dir=in,type=iso".into()]).unwrap();
    assert!(!set.is_empty());
}

#[test]
fn id_expands_to_vid_and_pid() {
    let set = FilterSet::parse(&["id=04f2:b71a".into()]).unwrap();
    let with_both = FilterSet::parse(&["vid=04f2,pid=b71a".into()]).unwrap();
    assert_eq!(set.exprs, with_both.exprs);
}

#[test]
fn rejects_unknown_keys_duplicates_and_bad_values() {
    assert!(FilterSet::parse(&["speed=480".into()]).unwrap_err().message().contains("speed"));
    assert!(FilterSet::parse(&["bus=1,bus=2".into()]).unwrap_err().message().contains("bus"));
    assert!(FilterSet::parse(&["ep=16".into()]).is_err());
    assert!(FilterSet::parse(&["dir=up".into()]).is_err());
    assert!(FilterSet::parse(&["vid=xyz".into()]).is_err());
    assert!(FilterSet::parse(&["bus".into()]).is_err());
}

#[test]
fn type_accepts_short_aliases() {
    assert!(FilterSet::parse(&["type=ctrl".into()]).is_ok());
    assert!(FilterSet::parse(&["type=int".into()]).is_ok());
}

#[test]
fn internal_accepts_yes_no_and_true_false_aliases() {
    let yes = FilterSet::parse(&["internal=yes".into()]).unwrap();
    let tru = FilterSet::parse(&["internal=true".into()]).unwrap();
    assert_eq!(yes.exprs, tru.exprs);

    let no = FilterSet::parse(&["internal=no".into()]).unwrap();
    let fal = FilterSet::parse(&["internal=false".into()]).unwrap();
    assert_eq!(no.exprs, fal.exprs);
}

#[test]
fn internal_rejects_other_values() {
    assert!(FilterSet::parse(&["internal=maybe".into()]).unwrap_err().message().contains("internal"));
}

#[test]
fn uses_internal_true_iff_any_expression_sets_the_key() {
    assert!(!FilterSet::default().uses_internal());
    assert!(!FilterSet::parse(&["bus=1".into()]).unwrap().uses_internal());
    assert!(FilterSet::parse(&["internal=yes".into()]).unwrap().uses_internal());
    assert!(FilterSet::parse(&["bus=1".into(), "internal=no".into()]).unwrap().uses_internal());
}

#[test]
fn empty_set_matches_everything() {
    let set = FilterSet::default();
    assert!(set.matches_device(&device(1, 4, None, None)));
}

#[test]
fn device_match_uses_identity_keys_only() {
    let set = FilterSet::parse(&["bus=1,ep=1,dir=in".into()]).unwrap();
    assert!(set.matches_device(&device(1, 4, None, None)), "ep/dir do not hide a device");
    assert!(!set.matches_device(&device(2, 4, None, None)));
}

#[test]
fn unread_metadata_does_not_match_identity_keys() {
    let set = FilterSet::parse(&["vid=04f2".into()]).unwrap();
    assert!(!set.matches_device(&device(1, 4, None, None)));
    assert!(set.matches_device(&device(1, 4, Some(0x04f2), None)));
}

#[test]
fn internal_matches_a_device_s_is_internal_flag_both_directions() {
    let mut internal = device(1, 4, None, None);
    internal.is_internal = true;
    let external = device(1, 5, None, None);

    let want_internal = FilterSet::parse(&["internal=yes".into()]).unwrap();
    assert!(want_internal.matches_device(&internal));
    assert!(!want_internal.matches_device(&external));

    let want_external = FilterSet::parse(&["internal=no".into()]).unwrap();
    assert!(!want_external.matches_device(&internal));
    assert!(want_external.matches_device(&external));
}

#[test]
fn name_matches_vendor_or_product_case_insensitively() {
    let set = FilterSet::parse(&["name=camera".into()]).unwrap();
    assert!(set.matches_device(&device(1, 4, None, Some("Integrated IR Camera"))));
    assert!(!set.matches_device(&device(1, 4, None, Some("Keyboard"))));
}

#[test]
fn packet_match_requires_every_key_of_one_expression() {
    let set = FilterSet::parse(&["bus=1,ep=1,dir=in,type=iso".into(), "bus=2".into()]).unwrap();
    let iso_in = packet(1, 4, 1, true, TransferType::Isochronous, 27_000);
    let bulk_out = packet(1, 4, 2, false, TransferType::Bulk, 512);
    let other_bus = packet(2, 3, 1, true, TransferType::Bulk, 64);
    let d1 = device(1, 4, None, None);
    let d2 = device(2, 3, None, None);
    assert!(set.matches_packet(&iso_in, &d1));
    assert!(!set.matches_packet(&bulk_out, &d1), "second expression is bus=2, first needs iso in ep1");
    assert!(set.matches_packet(&other_bus, &d2), "expressions OR");
}

#[test]
fn each_refusal_says_what_was_wrong() {
    for (arg, word) in [
        ("bus", "bus"),
        ("id=04f2", "04f2"),
        ("ep=16", "16"),
        ("dir=up", "up"),
        ("type=fast", "fast"),
        ("internal=perhaps", "perhaps"),
        ("speed=480", "speed"),
        ("bus=1,bus=2", "bus"),
        ("bus=many", "many"),
        ("bus=256", "256"),
        ("vid=xyz", "xyz"),
        ("vid=12345", "12345"),
    ] {
        assert!(refusal(arg).contains(word), "{arg}: {}", refusal(arg));
    }
}

#[test]
fn a_name_is_compared_in_lower_case_beyond_ascii() {
    let set = parse("name=\u{c9}COUTE");
    assert!(set.matches_device(&device(1, 4, None, Some("Casque \u{c9}coute"))));
    let mut by_vendor = device(1, 4, None, None);
    by_vendor.vendor = Some("\u{e9}COUTE".to_string());
    assert!(set.matches_device(&by_vendor), "the vendor's name counts too");
    assert!(!set.matches_device(&device(1, 4, None, Some("Casque"))));
}

#[test]
fn the_text_after_the_first_equals_sign_is_the_value() {
    assert!(parse("name=a=b").matches_device(&device(1, 1, None, Some("xA=By"))));
    assert!(name_matches("ir camera", "camera"));
    assert!(!name_matches("ir camera", "keyboard"));
}

#[test]
fn a_packet_that_passes_belongs_to_a_device_that_passes() {
    let set = parse("bus=1,vid=04f2,type=bulk");
    let d = device(1, 4, Some(0x04f2), None);
    let p = packet(1, 4, 2, false, TransferType::Bulk, 1);
    assert!(set.matches_packet(&p, &d) && set.matches_device(&d));
    let other = device(1, 4, Some(0x04f3), None);
    assert!(!set.matches_packet(&p, &other) && !set.matches_device(&other));
    assert!(set.matches_traffic(&d, 9, true, Some(TransferType::Bulk)));
    assert!(!set.matches_traffic(&d, 9, true, None));
}

#[test]
fn one_expression_can_be_read_alone() {
    let one = FilterExpr::parse("bus=1").unwrap();
    assert_eq!(parse("bus=1").exprs, vec![one]);
    assert!(FilterExpr::parse("").is_err());
}

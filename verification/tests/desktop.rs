use rayfish_gui::desktop::{
    height_request, icon_rgba, is_quit_message, loop_flow, menu_labels, mutex_step, react, select_update, window_title_now, Flow,
    GuiAction, GuiEvent, MutexStep, PendingUpdate,
};
use rayfish_gui::settings::GuiConfig;

fn assets(v: &[(&str, &str)]) -> Vec<(String, String)> {
    v.iter().map(|(a, b)| (a.to_string(), b.to_string())).collect()
}

#[test]
fn update_offers_the_first_zip() {
    let list = assets(&[("notes.txt", "u0"), ("ray-win.ZIP", "u1"), ("other.zip", "u2")]);
    let upd = select_update("1.4.0", true, &list).unwrap();
    assert_eq!(upd.version, "1.4.0");
    assert_eq!(upd.url, "u1");
    assert_eq!(upd.file_name, "bm-rayfish-V1.4.0.zip");
}

#[test]
fn no_update_when_not_newer_or_no_zip() {
    let list = assets(&[("a.zip", "u")]);
    assert!(select_update("1.0.0", false, &list).is_none());
    let list = assets(&[("a.tar.gz", "u"), ("zip", "v")]);
    assert!(select_update("9.9.9", true, &list).is_none());
}

#[test]
fn title_alternates_only_while_an_update_is_known() {
    let cfg = GuiConfig::defaults();
    let upd = PendingUpdate { version: "2.0.0".into(), url: "u".into(), file_name: "f".into() };
    let product = cfg.window_title("1.0.0");
    assert_eq!(window_title_now(&cfg, "1.0.0", Some(&upd), true), "發現新版本 V2.0.0");
    assert_eq!(window_title_now(&cfg, "1.0.0", Some(&upd), false), product);
    assert_eq!(window_title_now(&cfg, "1.0.0", None, true), product);
}

#[test]
fn tray_menu_follows_language_and_update() {
    let cfg = GuiConfig::defaults();
    let m = menu_labels(&cfg, true);
    assert_eq!(m.download.as_deref(), Some("下載更新"));
    assert_eq!(m.github, "GitHub");
    assert_eq!(m.about, "關於");
    assert_eq!(m.exit, "結束");
    assert!(menu_labels(&cfg, false).download.is_none());
}

#[test]
fn loop_waits_on_a_timer_only_with_an_update() {
    let (show, flow) = loop_flow(true, false);
    assert!(!show);
    assert!(matches!(flow, Flow::Wait));
    let (show, flow) = loop_flow(true, true);
    assert!(show);
    assert!(matches!(flow, Flow::WaitUntilTick));
}

#[test]
fn events_lead_to_actions() {
    let (show, acts) = react(false, true, GuiEvent::Tick);
    assert!(show);
    assert!(matches!(acts.as_slice(), [GuiAction::ApplyTitles]));
    let (show, acts) = react(false, false, GuiEvent::Tick);
    assert!(!show);
    assert!(acts.is_empty());
    let (_, acts) = react(false, false, GuiEvent::LocaleChanged);
    assert!(matches!(acts.as_slice(), [GuiAction::RebuildTray, GuiAction::ApplyTitles]));
    let (_, acts) = react(true, true, GuiEvent::MenuExit);
    assert!(matches!(acts.as_slice(), [GuiAction::Exit]));
    let (_, acts) = react(true, true, GuiEvent::MovedOrResized { minimized: true });
    assert!(matches!(acts.as_slice(), [GuiAction::HideWindow]));
    let (_, acts) = react(true, true, GuiEvent::MovedOrResized { minimized: false });
    assert!(acts.is_empty());
    let (_, acts) = react(true, true, GuiEvent::TrayClicked);
    assert!(matches!(acts.as_slice(), [GuiAction::RestoreWindow]));
    let (_, acts) = react(true, true, GuiEvent::MenuDownload);
    assert!(matches!(acts.as_slice(), [GuiAction::StartDownload]));
}

#[test]
fn height_messages_are_recognised() {
    assert_eq!(height_request("height:412.5").as_deref(), Some("412.5"));
    assert_eq!(height_request("height:").as_deref(), Some(""));
    assert!(height_request("width:3").is_none());
    assert!(height_request("heigh").is_none());
}

#[test]
fn only_the_quit_byte_quits() {
    assert!(is_quit_message(true, 1, 0x7E));
    assert!(!is_quit_message(false, 1, 0x7E));
    assert!(!is_quit_message(true, 0, 0x7E));
    assert!(!is_quit_message(true, 1, 0x7F));
}

#[test]
fn single_instance_handshake_steps() {
    assert!(matches!(mutex_step(false, true, true), MutexStep::GiveUp));
    assert!(matches!(mutex_step(true, false, true), MutexStep::Hold));
    assert!(matches!(mutex_step(true, true, true), MutexStep::TakeOver));
    assert!(matches!(mutex_step(true, true, false), MutexStep::AskPeerToQuit));
}

#[test]
fn icon_file_decodes_to_rgba_pixels() {
    let img = image::RgbaImage::from_pixel(2, 3, image::Rgba([10, 20, 30, 255]));
    let mut png = Vec::new();
    img.write_to(&mut std::io::Cursor::new(&mut png), image::ImageFormat::Png).unwrap();
    let (raw, w, h) = icon_rgba(&png).unwrap();
    assert_eq!((w, h), (2, 3));
    assert_eq!(raw, [10u8, 20, 30, 255].repeat(6));
    assert!(icon_rgba(b"not an image").is_none());
}

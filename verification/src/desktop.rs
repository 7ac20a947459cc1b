//! The decisions of the desktop window: its title, its tray menu, the update
//! it offers, and what each event of its loop leads to.

use vstd::prelude::*;

use crate::scan::{ascii_lower, lower};
use crate::settings::{title_of, translate, GuiConfig};
use crate::text::{chars_of, push_text, replace_text, replaced};

verus! {

/// A newer release that can be downloaded.
#[derive(Debug)]
pub struct PendingUpdate {
    pub version: String,
    pub url: String,
    pub file_name: String,
}

/// Why the window wakes up.
#[derive(Debug)]
pub enum GuiWake {
    LocaleChanged,
    UpdateChanged,
}

/// The window title while an update is announced: the `update_available`
/// text with `{ver}` replaced by the version.
pub open spec fn update_title(root: crate::json::Json, version: Seq<char>) -> Seq<char> {
    replaced(translate(root, "update_available"@), "{ver}"@, version)
}

/// The title the window shows: the update announcement on the alternate
/// ticks while an update is known, else the product title.
pub open spec fn shown_title(root: crate::json::Json, program_version: Seq<char>, update: Option<Seq<char>>, show_update_title: bool) -> Seq<char> {
    match update {
        Some(v) => if show_update_title { update_title(root, v) } else { title_of(root, program_version) },
        None => title_of(root, program_version),
    }
}

/// The window title (see [`shown_title`]); the tray tooltip is always
/// [`GuiConfig::window_title`].
pub fn window_title_now(config: &GuiConfig, program_version: &str, update: Option<&PendingUpdate>, show_update_title: bool) -> (r: String)
    ensures
        r@ == shown_title(
            config@,
            program_version@,
            match update {
                Some(u) => Some(u.version@),
                None => None,
            },
            show_update_title,
        ),
{
    match update {
        Some(u) => if show_update_title {
            proof {
                reveal_strlit("{ver}");
            }
            replace_text(config.t("update_available").as_str(), "{ver}", u.version.as_str())
        } else {
            config.window_title(program_version)
        },
        None => config.window_title(program_version),
    }
}

/// The labels of the tray menu, top to bottom.
#[derive(Debug)]
pub struct MenuLabels {
    pub download: Option<String>,
    pub github: String,
    pub about: String,
    pub exit: String,
}

/// The tray menu: a download entry while an update is known, then GitHub,
/// About and Exit in the current language.
pub fn menu_labels(config: &GuiConfig, has_update: bool) -> (r: MenuLabels)
    ensures
        r.download is Some == has_update,
        r.download matches Some(d) ==> d@ == translate(config@, "download_update"@),
        r.github@ == "GitHub"@,
        r.about@ == translate(config@, "about"@),
        r.exit@ == translate(config@, "exit"@),
{
    let download = if has_update {
        Some(config.t("download_update"))
    } else {
        None
    };
    MenuLabels { download, github: "GitHub".to_owned(), about: config.t("about"), exit: config.t("exit") }
}

/// Whether `name`, in ASCII lower case, ends with `.zip`.
pub open spec fn is_zip_name(name: Seq<char>) -> bool {
    name.len() >= 4 && ascii_lower(name[name.len() - 4]) == '.' && ascii_lower(name[name.len() - 3]) == 'z'
        && ascii_lower(name[name.len() - 2]) == 'i' && ascii_lower(name[name.len() - 1]) == 'p'
}

/// The index of the first asset whose name is a zip archive.
pub open spec fn first_zip(assets: Seq<(Seq<char>, Seq<char>)>) -> Option<int>
    decreases assets.len(),
{
    if assets.len() == 0 {
        None
    } else if is_zip_name(assets[0].0) {
        Some(0)
    } else {
        match first_zip(assets.drop_first()) {
            Some(i) => Some(i + 1),
            None => None,
        }
    }
}

/// The name the downloaded archive gets.
pub open spec fn archive_name(version: Seq<char>) -> Seq<char> {
    "bm-rayfish-V"@ + version + ".zip"@
}

/// The update to offer, given the latest release's version, whether it is
/// newer than the running program, and its assets as (name, download URL):
/// none unless it is newer and has a zip archive, whose URL it takes.
pub open spec fn offered(version: Seq<char>, newer: bool, assets: Seq<(Seq<char>, Seq<char>)>) -> Option<(Seq<char>, Seq<char>, Seq<char>)> {
    if !newer {
        None
    } else {
        match first_zip(assets) {
            Some(i) => Some((version, assets[i].1, archive_name(version))),
            None => None,
        }
    }
}

fn zip_name(name: &str) -> (r: bool)
    ensures
        r == is_zip_name(name@),
{
    let cs = chars_of(name);
    let n = cs.len();
    if n < 4 {
        return false;
    }
    lower(cs[n - 4]) == 46 && lower(cs[n - 3]) == 122 && lower(cs[n - 2]) == 105 && lower(cs[n - 1]) == 112
}

/// The update to offer (see [`offered`]).
#[verifier::loop_isolation(false)]
pub fn select_update(version: &str, newer: bool, assets: &Vec<(String, String)>) -> (r: Option<PendingUpdate>)
    ensures
        r is None <==> offered(version@, newer, crate::http::pairs_view(assets@)) is None,
        r matches Some(u) ==> offered(version@, newer, crate::http::pairs_view(assets@)) == Some(
            (u.version@, u.url@, u.file_name@),
        ),
{
    if !newer {
        return None;
    }
    let ghost av = crate::http::pairs_view(assets@);
    let mut i: usize = 0;
    assert(av.skip(0) =~= av);
    while i < assets.len()
        invariant
            i <= assets.len(),
            av == crate::http::pairs_view(assets@),
            first_zip(av) == match first_zip(av.skip(i as int)) {
                Some(k) => Some(k + i),
                None => None::<int>,
            },
        decreases assets.len() - i,
    {
        assert(av.skip(i as int)[0] == (assets@[i as int].0@, assets@[i as int].1@));
        if zip_name(assets[i].0.as_str()) {
            assert(first_zip(av.skip(i as int)) == Some(0int));
            assert(av[i as int] == av.skip(i as int)[0]);
            let mut file_name = "bm-rayfish-V".to_owned();
            push_text(&mut file_name, version);
            push_text(&mut file_name, ".zip");
            return Some(PendingUpdate { version: version.to_owned(), url: assets[i].1.clone(), file_name });
        }
        assert(av.skip(i as int).drop_first() =~= av.skip(i + 1));
        i = i + 1;
    }
    None
}

/// Whether the window's event loop keeps waking on a timer.
#[derive(Debug)]
pub enum Flow {
    /// Sleep until the next event.
    Wait,
    /// Wake every three seconds to alternate the title.
    WaitUntilTick,
}

/// What an iteration of the loop starts with: while an update is known the
/// loop wakes on a timer and the title alternation goes on, else it waits
/// and the product title is shown.
pub fn loop_flow(show_update_title: bool, has_update: bool) -> (r: (bool, Flow))
    ensures
        r.0 == (has_update && show_update_title),
        r.1 == (if has_update { Flow::WaitUntilTick } else { Flow::Wait }),
{
    if has_update {
        (show_update_title, Flow::WaitUntilTick)
    } else {
        (false, Flow::Wait)
    }
}

/// Something the window loop is told.
#[derive(Debug)]
pub enum GuiEvent {
    /// The three-second timer ran out.
    Tick,
    /// Another instance asked this one to quit.
    Quit,
    Restore,
    OpenGithub,
    OpenAbout,
    DownloadUpdate,
    /// The page asked for a new height.
    SetHeight,
    LocaleChanged,
    UpdateChanged,
    CloseRequested,
    /// The window moved or was resized; `minimized` tells whether it is
    /// minimized now.
    MovedOrResized { minimized: bool },
    /// The tray icon was clicked with the left button (on release).
    TrayClicked,
    /// An entry of the tray menu was chosen.
    MenuGithub,
    MenuAbout,
    MenuExit,
    MenuDownload,
    Other,
}

/// Something the window loop does.
#[derive(Debug)]
pub enum GuiAction {
    Exit,
    RestoreWindow,
    OpenGithub,
    OpenAbout,
    StartDownload,
    ApplyHeight,
    /// Rebuild the tray menu in the current language (when there is a tray).
    RebuildTray,
    /// Set the window title and the tray tooltip.
    ApplyTitles,
    HideWindow,
}

/// What an event leads to, and the title alternation afterwards.
pub open spec fn reaction(show_update_title: bool, has_update: bool, event: GuiEvent) -> (bool, Seq<GuiAction>) {
    match event {
        GuiEvent::Tick => if has_update {
            (!show_update_title, seq![GuiAction::ApplyTitles])
        } else {
            (show_update_title, Seq::empty())
        },
        GuiEvent::Quit => (show_update_title, seq![GuiAction::Exit]),
        GuiEvent::Restore => (show_update_title, seq![GuiAction::RestoreWindow]),
        GuiEvent::OpenGithub => (show_update_title, seq![GuiAction::OpenGithub]),
        GuiEvent::OpenAbout => (show_update_title, seq![GuiAction::OpenAbout]),
        GuiEvent::DownloadUpdate => (show_update_title, seq![GuiAction::StartDownload]),
        GuiEvent::SetHeight => (show_update_title, seq![GuiAction::ApplyHeight]),
        GuiEvent::LocaleChanged => (show_update_title, seq![GuiAction::RebuildTray, GuiAction::ApplyTitles]),
        GuiEvent::UpdateChanged => (show_update_title, seq![GuiAction::RebuildTray, GuiAction::ApplyTitles]),
        GuiEvent::CloseRequested => (show_update_title, seq![GuiAction::Exit]),
        GuiEvent::MovedOrResized { minimized } => if minimized {
            (show_update_title, seq![GuiAction::HideWindow])
        } else {
            (show_update_title, Seq::empty())
        },
        GuiEvent::TrayClicked => (show_update_title, seq![GuiAction::RestoreWindow]),
        GuiEvent::MenuGithub => (show_update_title, seq![GuiAction::OpenGithub]),
        GuiEvent::MenuAbout => (show_update_title, seq![GuiAction::OpenAbout]),
        GuiEvent::MenuExit => (show_update_title, seq![GuiAction::Exit]),
        GuiEvent::MenuDownload => (show_update_title, seq![GuiAction::StartDownload]),
        GuiEvent::Other => (show_update_title, Seq::empty()),
    }
}

/// A change of what the menu shows (the language, or whether an update is
/// known) is handled alike whichever it is: the tray menu is rebuilt first,
/// so that it gains or loses the download entry and takes the new texts,
/// and then the titles are applied; the title alternation is left as it is.
pub proof fn lemma_menu_changes_rebuild_tray(show_update_title: bool, has_update: bool)
    ensures
        reaction(show_update_title, has_update, GuiEvent::UpdateChanged) == reaction(
            show_update_title,
            has_update,
            GuiEvent::LocaleChanged,
        ),
        reaction(show_update_title, has_update, GuiEvent::UpdateChanged).0 == show_update_title,
        reaction(show_update_title, has_update, GuiEvent::UpdateChanged).1.len() == 2,
        reaction(show_update_title, has_update, GuiEvent::UpdateChanged).1[0] is RebuildTray,
        reaction(show_update_title, has_update, GuiEvent::UpdateChanged).1[1] is ApplyTitles,
{
}

/// What the loop does with `event` (see [`reaction`]).
pub fn react(show_update_title: bool, has_update: bool, event: GuiEvent) -> (r: (bool, Vec<GuiAction>))
    ensures
        r.0 == reaction(show_update_title, has_update, event).0,
        r.1@ == reaction(show_update_title, has_update, event).1,
{
    let mut acts: Vec<GuiAction> = Vec::new();
    let mut show = show_update_title;
    match event {
        GuiEvent::Tick => if has_update {
            show = !show_update_title;
            acts.push(GuiAction::ApplyTitles);
        },
        GuiEvent::Quit | GuiEvent::CloseRequested | GuiEvent::MenuExit => acts.push(GuiAction::Exit),
        GuiEvent::Restore | GuiEvent::TrayClicked => acts.push(GuiAction::RestoreWindow),
        GuiEvent::OpenGithub | GuiEvent::MenuGithub => acts.push(GuiAction::OpenGithub),
        GuiEvent::OpenAbout | GuiEvent::MenuAbout => acts.push(GuiAction::OpenAbout),
        GuiEvent::DownloadUpdate | GuiEvent::MenuDownload => acts.push(GuiAction::StartDownload),
        GuiEvent::SetHeight => acts.push(GuiAction::ApplyHeight),
        GuiEvent::LocaleChanged | GuiEvent::UpdateChanged => {
            acts.push(GuiAction::RebuildTray);
            acts.push(GuiAction::ApplyTitles);
        },
        GuiEvent::MovedOrResized { minimized } => if minimized {
            acts.push(GuiAction::HideWindow);
        },
        GuiEvent::Other => {},
    }
    assert(acts@ =~= reaction(show_update_title, has_update, event).1);
    (show, acts)
}

/// The text after `height:` in a message from the page, if it starts so.
pub open spec fn height_text(body: Seq<char>) -> Option<Seq<char>> {
    if body.len() >= 7 && body.take(7) == "height:"@ {
        Some(body.skip(7))
    } else {
        None
    }
}

/// The number text of a height request from the page (see [`height_text`]).
#[verifier::loop_isolation(false)]
pub fn height_request(body: &str) -> (r: Option<String>)
    ensures
        r is None <==> height_text(body@) is None,
        r matches Some(t) ==> height_text(body@) == Some(t@),
{
    let cs = chars_of(body);
    proof {
        reveal_strlit("height:");
    }
    let prefix = chars_of("height:");
    if cs.len() >= 7 {
        let mut k: usize = 0;
        while k < 7
            invariant
                k <= 7,
                cs.len() >= 7,
                prefix@ == "height:"@,
                prefix@.len() == 7,
                forall|j: int| 0 <= j < k ==> cs@[j] == prefix@[j],
            decreases 7 - k,
        {
            if cs[k] != prefix[k] {
                assert(cs@.take(7)[k as int] != "height:"@[k as int]);
                return None;
            }
            k = k + 1;
        }
        assert(cs@.take(7) =~= "height:"@);
        Some(crate::scan::collect(&cs, 7, cs.len()))
    } else {
        None
    }
}

/// Whether a message on the instance pipe asks this instance to quit: one
/// byte, `0x7E`, read in full.
pub fn is_quit_message(read_ok: bool, read: u32, byte: u8) -> (r: bool)
    ensures
        r == (read_ok && read == 1 && byte == 0x7E),
{
    read_ok && read == 1 && byte == 0x7E
}

/// What the single-instance handshake does after trying to create the named
/// mutex.
#[derive(Debug)]
pub enum MutexStep {
    /// The mutex could not be created: run without it.
    GiveUp,
    /// This instance now holds the mutex.
    Hold,
    /// Another instance still holds it after the whole wait: create it once
    /// more and keep whatever comes back.
    TakeOver,
    /// Another instance holds it: wait for it, ask it to quit, try again.
    AskPeerToQuit,
}

/// The step after a creation attempt that `created` (a handle came back),
/// with `already_exists` telling whether the mutex was there before, once
/// the two-minute wait is `past_deadline` or not.
pub open spec fn mutex_step_of(created: bool, already_exists: bool, past_deadline: bool) -> MutexStep {
    if !created {
        MutexStep::GiveUp
    } else if !already_exists {
        MutexStep::Hold
    } else if past_deadline {
        MutexStep::TakeOver
    } else {
        MutexStep::AskPeerToQuit
    }
}

/// The next step of the single-instance handshake (see [`mutex_step_of`]).
pub fn mutex_step(created: bool, already_exists: bool, past_deadline: bool) -> (r: MutexStep)
    ensures
        r == mutex_step_of(created, already_exists, past_deadline),
{
    if !created {
        MutexStep::GiveUp
    } else if !already_exists {
        MutexStep::Hold
    } else if past_deadline {
        MutexStep::TakeOver
    } else {
        MutexStep::AskPeerToQuit
    }
}

/// What `image::load_from_memory_with_format(file, ImageFormat::Png)`
/// followed by `into_rgba8` makes of the bytes of a PNG file: its pixels as
/// RGBA bytes, row by row, with its width and height; nothing when the bytes
/// are not a PNG image the crate can decode.
pub uninterp spec fn rgba_of(file: Seq<u8>) -> Option<(Seq<u8>, u32, u32)>;

/// `image::load_from_memory_with_format(file, ImageFormat::Png)`, then
/// `DynamicImage::into_rgba8`, `ImageBuffer::dimensions` and
/// `ImageBuffer::into_raw`. With the format fixed the crate's built-in PNG
/// decoder runs and no registered hook is consulted, so the outcome is a
/// function of the bytes (named [`rgba_of`]); how an image is decoded is left
/// to the name. The buffer holds four bytes per pixel: the decoder allocates
/// width × height × bytes per pixel, and a conversion to RGBA allocates a new
/// buffer of width × height × 4.
#[verifier::external_body]
fn decode_rgba(file: &[u8]) -> (r: Option<(Vec<u8>, u32, u32)>)
    ensures
        match r {
            Some((raw, w, h)) => rgba_of(file@) == Some((raw@, w, h)) && raw@.len() == 4 * w * h,
            None => rgba_of(file@) is None,
        },
{
    match image::load_from_memory_with_format(file, image::ImageFormat::Png) {
        Ok(img) => {
            let rgba = img.into_rgba8();
            let (w, h) = rgba.dimensions();
            Some((rgba.into_raw(), w, h))
        },
        Err(_) => None,
    }
}

/// The pixels of the window and tray icon, from the bytes of its PNG file:
/// RGBA bytes with the width and height (see [`rgba_of`]).
pub fn icon_rgba(file: &[u8]) -> (r: Option<(Vec<u8>, u32, u32)>)
    ensures
        match r {
            Some((raw, w, h)) => rgba_of(file@) == Some((raw@, w, h)) && raw@.len() == 4 * w * h,
            None => rgba_of(file@) is None,
        },
{
    decode_rgba(file)
}

} // verus!

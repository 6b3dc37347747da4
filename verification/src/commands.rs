//! The pure parts of the commands the frontend invokes: the answers they
//! build and the decisions they take.

use vstd::prelude::*;
use vstd::string::*;
use crate::extensions::ExtensionInfo;

verus! {

/// What adding an extension answers.
pub struct AddResult {
    pub ok: bool,
    pub extension: Option<ExtensionInfo>,
    pub error: Option<String>,
}

/// The message when the folder picker was cancelled.
pub open spec fn no_folder_message() -> Seq<char> {
    "No folder selected"@
}

/// The answer to an add request: `None` when no folder was picked, else the
/// outcome of adding the picked folder.
pub fn add_result(outcome: Option<Result<ExtensionInfo, String>>) -> (r: AddResult)
    ensures
        match outcome {
            None => !r.ok && r.extension is None && r.error is Some && r.error->0@
                == no_folder_message(),
            Some(Ok(info)) => r.ok && r.extension == Some(info) && r.error is None,
            Some(Err(e)) => !r.ok && r.extension is None && r.error == Some(e),
        },
{
    match outcome {
        Some(Ok(info)) => AddResult { ok: true, extension: Some(info), error: None },
        Some(Err(e)) => AddResult { ok: false, extension: None, error: Some(e) },
        None => AddResult {
            ok: false,
            extension: None,
            error: Some(String::from_str("No folder selected")),
        },
    }
}

/// Information about the page shown in the active tab.
pub struct PageInfo {
    pub title: String,
    pub url: String,
    pub description: String,
    pub link_count: usize,
    pub image_count: usize,
}

/// Packages what the frontend's probe found into a `PageInfo`.
pub fn page_info_get(
    title: String,
    url: String,
    description: String,
    link_count: usize,
    image_count: usize,
) -> (p: PageInfo)
    ensures
        p.title == title,
        p.url == url,
        p.description == description,
        p.link_count == link_count,
        p.image_count == image_count,
{
    PageInfo { title, url, description, link_count, image_count }
}

/// The CSS of the dark-reader feature, the single source of it.
pub open spec fn dark_reader_css() -> Seq<char> {
    "
html {
  filter: invert(0.92) hue-rotate(180deg) brightness(105%) contrast(90%) !important;
  background: #fff !important;
}
img, picture, video, iframe, canvas, svg, embed, object {
  filter: invert(1) hue-rotate(180deg) !important;
}
* {
  text-shadow: none !important;
  box-shadow: none !important;
}
html[data-surf-fed-skip] {
  filter: none !important;
}
"@
}

/// The dark-reader CSS, for the frontend to inject into pages.
pub fn darkreader_get_css() -> (css: String)
    ensures
        css@ == dark_reader_css(),
{
    String::from_str(
        "
html {
  filter: invert(0.92) hue-rotate(180deg) brightness(105%) contrast(90%) !important;
  background: #fff !important;
}
img, picture, video, iframe, canvas, svg, embed, object {
  filter: invert(1) hue-rotate(180deg) !important;
}
* {
  text-shadow: none !important;
  box-shadow: none !important;
}
html[data-surf-fed-skip] {
  filter: none !important;
}
",
    )
}

/// What the maximize button does to the window.
pub enum WindowResize {
    Maximize,
    Unmaximize,
}

/// The maximize button restores a maximized window and maximizes any other;
/// a window whose state cannot be read counts as not maximized.
pub fn maximize_action(is_maximized: Option<bool>) -> (a: WindowResize)
    ensures
        (a is Unmaximize) == (is_maximized == Some(true)),
{
    match is_maximized {
        Some(true) => WindowResize::Unmaximize,
        _ => WindowResize::Maximize,
    }
}

} // verus!

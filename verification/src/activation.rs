//! Mapping a resolved window to the program identifier handed to the
//! external window-activation tool: a fixed table of known window classes,
//! then known keywords in the title, then the lowercased class itself.

use vstd::prelude::*;
use crate::text::contains_sub;
use crate::text::seq_contains_sub;
use crate::text::str_eq;
use crate::window::WindowInfo;

verus! {

/// The lowercase folding performed by `str::to_lowercase`, named but left
/// unspecified: the folding of a string is a function of its characters
/// alone.
pub uninterp spec fn lower_of(s: Seq<char>) -> Seq<char>;

/// Relies on `str::to_lowercase`: the result is the Unicode lowercase
/// folding of the input, which depends on the input characters alone.
#[verifier::external_body]
pub(crate) fn lowercase(s: &str) -> (r: String)
    ensures
        r@ == lower_of(s@),
{
    s.to_lowercase()
}

/// The activation target for a window with the given lowercased class and
/// lowercased title: first an exact entry of the class table, then a
/// keyword of the title, and otherwise the lowercased class verbatim.
/// Total: every window yields some identifier.
pub open spec fn spec_activation_target(cl: Seq<char>, tl: Seq<char>) -> Seq<char> {
    if cl == "code"@ || cl == "vscode"@ {
        "code"@
    } else if cl == "google-chrome"@ || cl == "chrome"@ {
        "chrome"@
    } else if cl == "firefox"@ {
        "firefox"@
    } else if cl == "terminal"@ || cl == "gnome-terminal"@ {
        "terminal"@
    } else if cl == "nautilus"@ {
        "nautilus"@
    } else if seq_contains_sub(tl, "visual studio code"@) || seq_contains_sub(tl, "vscode"@) {
        "code"@
    } else if seq_contains_sub(tl, "chrome"@) {
        "chrome"@
    } else if seq_contains_sub(tl, "firefox"@) {
        "firefox"@
    } else if seq_contains_sub(tl, "terminal"@) {
        "terminal"@
    } else {
        cl
    }
}

/// Chooses the activation target from an already folded class and title;
/// exact with respect to `spec_activation_target`.
pub fn activation_target_folded(class_lower: &str, title_lower: &str) -> (r: String)
    ensures
        r@ == spec_activation_target(class_lower@, title_lower@),
{
    if str_eq(class_lower, "code") || str_eq(class_lower, "vscode") {
        ("code").to_owned()
    } else if str_eq(class_lower, "google-chrome") || str_eq(class_lower, "chrome") {
        ("chrome").to_owned()
    } else if str_eq(class_lower, "firefox") {
        ("firefox").to_owned()
    } else if str_eq(class_lower, "terminal") || str_eq(class_lower, "gnome-terminal") {
        ("terminal").to_owned()
    } else if str_eq(class_lower, "nautilus") {
        ("nautilus").to_owned()
    } else if contains_sub(title_lower, "visual studio code") || contains_sub(
        title_lower,
        "vscode",
    ) {
        ("code").to_owned()
    } else if contains_sub(title_lower, "chrome") {
        ("chrome").to_owned()
    } else if contains_sub(title_lower, "firefox") {
        ("firefox").to_owned()
    } else if contains_sub(title_lower, "terminal") {
        ("terminal").to_owned()
    } else {
        class_lower.to_owned()
    }
}

/// Maps a window to the identifier the activation tool is invoked with.
pub fn extract_program_name(window: &WindowInfo) -> (r: String)
    ensures
        r@ == spec_activation_target(lower_of(window.class@), lower_of(window.title@)),
{
    let cl = lowercase(window.class.as_str());
    let tl = lowercase(window.title.as_str());
    activation_target_folded(cl.as_str(), tl.as_str())
}

} // verus!

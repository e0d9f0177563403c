//! The document of a live view, which is changed by scripts that the host
//! sends to the page.

use vstd::prelude::*;
use vstd::string::*;

verus! {

/// The document of a page that is rendered remotely. What changes the page
/// is a script; the document makes the script, and the caller sends it.
pub struct LiveviewDocument {}

/// The script that sets the title of the page to `title`.
pub open spec fn title_script(title: Seq<char>) -> Seq<char> {
    "window.document.title = '"@ + title + "';"@
}

impl LiveviewDocument {
    /// The document of a page.
    pub fn new() -> Self {
        LiveviewDocument {  }
    }

    /// The script that sets the title of the page. The title is put between
    /// the quotes as it is.
    pub fn set_title(&self, title: String) -> (script: String)
        ensures
            script@ == title_script(title@),
    {
        let script = String::from_str("window.document.title = '");
        let script = script.concat(title.as_str());
        script.concat("';")
    }
}

} // verus!

//! The script that renders a page on the server.
//!
//! The functions here only put the script together; running it is left to
//! the caller.

use crate::text::{push_chars, to_chars};
use vstd::prelude::*;

verus! {

/// What stands before the package name in the script.
pub open spec fn script_head() -> Seq<char> {
    "\n        let __fastn_package_name__ = \""@
}

/// What stands between the package name and the page's own script.
pub open spec fn script_middle() -> Seq<char> {
    "\";\n"@
}

/// What follows the page's own script: the wrapper that builds the page in
/// a column that fills its container, and the call that renders it.
pub open spec fn script_tail() -> Seq<char> {
    "\n        let main_wrapper = function(parent) {\n            let parenti0 = fastn_dom.createKernel(parent, fastn_dom.ElementKind.Column);\n            parenti0.setProperty(fastn_dom.PropertyKind.Width, fastn_dom.Resizing.FillContainer, inherited);\n            parenti0.setProperty(fastn_dom.PropertyKind.Height, fastn_dom.Resizing.FillContainer, inherited);\n            main(parenti0);\n        };\n        fastnVirtual.ssr(main_wrapper);"@
}

/// The script that renders the page whose own script is `js`, for the
/// package `package_name`.
pub open spec fn raw_script(package_name: Seq<char>, js: Seq<char>) -> Seq<char> {
    script_head() + package_name + script_middle() + js + script_tail()
}

/// The script that renders the page whose own script is `js`, for the
/// package `package_name`.
pub fn ssr_raw_string(package_name: &str, js: &str) -> (script: String)
    ensures
        script@ == raw_script(package_name@, js@),
{
    let mut script = "\n        let __fastn_package_name__ = \"".to_owned();
    push_chars(&mut script, &to_chars(package_name));
    push_chars(&mut script, &to_chars("\";\n"));
    push_chars(&mut script, &to_chars(js));
    push_chars(
        &mut script,
        &to_chars(
            "\n        let main_wrapper = function(parent) {\n            let parenti0 = fastn_dom.createKernel(parent, fastn_dom.ElementKind.Column);\n            parenti0.setProperty(fastn_dom.PropertyKind.Width, fastn_dom.Resizing.FillContainer, inherited);\n            parenti0.setProperty(fastn_dom.PropertyKind.Height, fastn_dom.Resizing.FillContainer, inherited);\n            main(parenti0);\n        };\n        fastnVirtual.ssr(main_wrapper);",
        ),
    );
    script
}

/// The script of `ssr_raw_string` after the runtime `all_js`, which the
/// caller supplies.
pub fn ssr_raw_string_without_test(all_js: &str, package_name: &str, js: &str) -> (script: String)
    ensures
        script@ == all_js@ + raw_script(package_name@, js@),
{
    let mut script = all_js.to_owned();
    let raw = ssr_raw_string(package_name, js);
    push_chars(&mut script, &to_chars(raw.as_str()));
    script
}

} // verus!

//! The page that loads the application in the browser.
//!
//! The page is made from a template by filling in its placeholders. Where the
//! template has no placeholder for a part, the part is put in front of the
//! closing tag that it belongs before.

use vstd::prelude::*;
use vstd::string::*;
use crate::builder::texts;
use crate::text::{chars_of, contains, occurs, replace, replaced, string_of};

verus! {

/// What a page reads of the project's configuration.
#[derive(Clone, Debug, PartialEq, Eq)]
pub struct DioxusConfig {
    /// The name of the application.
    pub name: String,
    /// The path below which the application is served.
    pub base_path: Option<String>,
    /// The title of the page.
    pub title: Option<String>,
    /// The style sheets of the page.
    pub style: Vec<String>,
    /// The scripts of the page.
    pub script: Vec<String>,
    /// The style sheets that are added while serving.
    pub dev_style: Vec<String>,
    /// The scripts that are added while serving.
    pub dev_script: Vec<String>,
}

/// `content` with the placeholder `replace` filled with `with`; where it has
/// no such placeholder, with `with` put in front of every `or_insert_before`.
pub open spec fn filled(
    content: Seq<char>,
    replace: Seq<char>,
    with: Seq<char>,
    or_insert_before: Seq<char>,
) -> Seq<char> {
    if occurs(content, replace) {
        replaced(content, replace, with)
    } else {
        replaced(content, or_insert_before, with + or_insert_before)
    }
}

/// Fills the placeholder `replace` of `content` with `with`, or puts `with` in
/// front of `or_insert_before` where there is no such placeholder.
pub fn replace_or_insert_before(
    replace_this: &str,
    with: &str,
    or_insert_before: &str,
    content: &mut String,
)
    ensures
        final(content)@ == filled(old(content)@, replace_this@, with@, or_insert_before@),
{
    let text = chars_of(content.as_str());
    let pattern = chars_of(replace_this);
    if contains(&text, &pattern) {
        *content = string_of(&replace(&text, &pattern, &chars_of(with)));
    } else {
        let with_both = String::from_str(with).concat(or_insert_before);
        *content = string_of(&replace(&text, &chars_of(or_insert_before), &chars_of(with_both.as_str())));
    }
}

/// The tags of some style sheets.
pub open spec fn style_tags(sheets: Seq<Seq<char>>) -> Seq<char>
    decreases sheets.len(),
{
    if sheets.len() == 0 {
        Seq::empty()
    } else {
        style_tags(sheets.drop_last()) + "<link rel=\"stylesheet\" href=\""@ + sheets.last()
            + "\">\n"@
    }
}

/// The tags of some scripts.
pub open spec fn script_tags(scripts: Seq<Seq<char>>) -> Seq<char>
    decreases scripts.len(),
{
    if scripts.len() == 0 {
        Seq::empty()
    } else {
        script_tags(scripts.drop_last()) + "<script src=\""@ + scripts.last()
            + "\"></script>\n"@
    }
}

/// The script that loads the application, in front of the closing tag of the
/// body.
pub open spec fn loader(base_path: Seq<char>, app_name: Seq<char>) -> Seq<char> {
    "<script type=\"module\">\n    import init from \"/"@ + base_path + "/assets/dioxus/"@
        + app_name + ".js\";\n    init(\"/"@ + base_path + "/assets/dioxus/"@ + app_name
        + "_bg.wasm\").then(wasm => {\n      if (wasm.__wbindgen_start == undefined) {\n        wasm.main();\n      }\n    });\n    </script>\n    </body"@
}

/// The page with the name of the application and its base path filled in:
/// into the placeholders where the template has both, else with the script
/// that loads the application put in front of the closing tag of the body.
pub open spec fn with_application(page: Seq<char>, base_path: Seq<char>, app_name: Seq<char>) -> Seq<
    char,
> {
    if occurs(page, "{app_name}"@) && occurs(page, "{base_path}"@) {
        replaced(replaced(page, "{app_name}"@, app_name), "{base_path}"@, base_path)
    } else {
        replaced(page, "</body"@, loader(base_path, app_name))
    }
}

/// The style sheets or scripts of a page: those of the configuration, and
/// while serving those for development behind them.
pub open spec fn resources(always: Seq<String>, dev: Seq<String>, serve: bool) -> Seq<Seq<char>> {
    if serve {
        texts(always) + texts(dev)
    } else {
        texts(always)
    }
}

/// The page.
pub open spec fn page_of(
    template: Seq<char>,
    config: DioxusConfig,
    serve: bool,
    autoreload: Seq<char>,
) -> Seq<char> {
    let styled = filled(
        template,
        "{style_include}"@,
        style_tags(resources(config.style@, config.dev_style@, serve)),
        "</head"@,
    );
    let scripted = filled(
        styled,
        "{script_include}"@,
        script_tags(resources(config.script@, config.dev_script@, serve)),
        "</body"@,
    );
    let reloading = if serve {
        scripted + "<script>"@ + autoreload + "</script>"@
    } else {
        scripted
    };
    let base_path = match config.base_path {
        Some(path) => path@,
        None => "."@,
    };
    let applied = with_application(reloading, base_path, config.name@);
    let title = match config.title {
        Some(title) => title@,
        None => "dioxus | \u{26fa}"@,
    };
    filled(applied, "{app_title}"@, title, "</title"@)
}

fn tags(
    always: &Vec<String>,
    dev: &Vec<String>,
    serve: bool,
    open: &str,
    close: &str,
    Ghost(style): Ghost<bool>,
) -> (out: String)
    requires
        style ==> open@ == "<link rel=\"stylesheet\" href=\""@ && close@ == "\">\n"@,
        !style ==> open@ == "<script src=\""@ && close@ == "\"></script>\n"@,
    ensures
        style ==> out@ == style_tags(resources(always@, dev@, serve)),
        !style ==> out@ == script_tags(resources(always@, dev@, serve)),
{
    let ghost all = resources(always@, dev@, serve);
    let mut out = String::new();
    let mut i: usize = 0;
    assert(texts(always@).take(0) =~= Seq::<Seq<char>>::empty());
    while i < always.len()
        invariant
            i <= always.len(),
            style ==> open@ == "<link rel=\"stylesheet\" href=\""@ && close@ == "\">\n"@,
            !style ==> open@ == "<script src=\""@ && close@ == "\"></script>\n"@,
            style ==> out@ == style_tags(texts(always@).take(i as int)),
            !style ==> out@ == script_tags(texts(always@).take(i as int)),
        decreases always.len() - i,
    {
        assert(texts(always@).take(i + 1).drop_last() =~= texts(always@).take(i as int));
        assert(texts(always@).take(i + 1).last() == always@[i as int]@);
        out.append(open);
        out.append(always[i].as_str());
        out.append(close);
        i += 1;
    }
    assert(texts(always@).take(i as int) =~= texts(always@));
    if serve {
        let mut k: usize = 0;
        assert(texts(always@) + texts(dev@).take(0) =~= texts(always@));
        while k < dev.len()
            invariant
                k <= dev.len(),
                style ==> open@ == "<link rel=\"stylesheet\" href=\""@ && close@ == "\">\n"@,
                !style ==> open@ == "<script src=\""@ && close@ == "\"></script>\n"@,
                style ==> out@ == style_tags(texts(always@) + texts(dev@).take(k as int)),
                !style ==> out@ == script_tags(texts(always@) + texts(dev@).take(k as int)),
            decreases dev.len() - k,
        {
            let ghost before = texts(always@) + texts(dev@).take(k as int);
            let ghost grown = texts(always@) + texts(dev@).take(k + 1);
            assert(grown.drop_last() =~= before);
            assert(grown.last() == dev@[k as int]@);
            out.append(open);
            out.append(dev[k].as_str());
            out.append(close);
            k += 1;
        }
        assert(texts(dev@).take(k as int) =~= texts(dev@));
    }
    out
}

/// Makes the page from `template`. While serving, the styles and scripts for
/// development are added and `autoreload`, the script that reloads the page,
/// is put behind everything.
pub fn gen_page(template: &str, config: &DioxusConfig, serve: bool, autoreload: &str) -> (html:
    String)
    ensures
        html@ == page_of(template@, *config, serve, autoreload@),
{
    let mut html = String::from_str(template);
    let style_str = tags(
        &config.style,
        &config.dev_style,
        serve,
        "<link rel=\"stylesheet\" href=\"",
        "\">\n",
        Ghost(true),
    );
    replace_or_insert_before("{style_include}", style_str.as_str(), "</head", &mut html);
    let script_str = tags(
        &config.script,
        &config.dev_script,
        serve,
        "<script src=\"",
        "\"></script>\n",
        Ghost(false),
    );
    replace_or_insert_before("{script_include}", script_str.as_str(), "</body", &mut html);
    if serve {
        html.append("<script>");
        html.append(autoreload);
        html.append("</script>");
    }
    let base_path: &str = match &config.base_path {
        Some(path) => path.as_str(),
        None => ".",
    };
    let app_name = config.name.as_str();
    let text = chars_of(html.as_str());
    if contains(&text, &chars_of("{app_name}")) && contains(&text, &chars_of("{base_path}")) {
        let named = replace(&text, &chars_of("{app_name}"), &chars_of(app_name));
        html = string_of(&replace(&named, &chars_of("{base_path}"), &chars_of(base_path)));
    } else {
        let mut script = String::from_str(
            "<script type=\"module\">\n    import init from \"/",
        );
        script.append(base_path);
        script.append("/assets/dioxus/");
        script.append(app_name);
        script.append(".js\";\n    init(\"/");
        script.append(base_path);
        script.append("/assets/dioxus/");
        script.append(app_name);
        script.append(
            "_bg.wasm\").then(wasm => {\n      if (wasm.__wbindgen_start == undefined) {\n        wasm.main();\n      }\n    });\n    </script>\n    </body",
        );
        html = string_of(&replace(&text, &chars_of("</body"), &chars_of(script.as_str())));
    }
    let title: &str = match &config.title {
        Some(title) => title.as_str(),
        None => "dioxus | \u{26fa}",
    };
    replace_or_insert_before("{app_title}", title, "</title", &mut html);
    html
}

} // verus!

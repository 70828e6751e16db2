//! The generator's configuration: where fragments are read, where pages are
//! written, and the layout that wraps them.
use crate::pass::{PageError, Pass, Stage};
use crate::render::{page_of, render_page as render};
use vstd::prelude::*;

verus! {

broadcast use vstd::string::group_string_axioms;

/// Renders the fragments of one directory into pages of another.
pub struct TemplateEngine {
    templates_dir: String,
    pages_dir: String,
    base_template: String,
}

impl TemplateEngine {
    pub closed spec fn templates_dir_spec(&self) -> Seq<char> {
        self.templates_dir@
    }

    pub closed spec fn pages_dir_spec(&self) -> Seq<char> {
        self.pages_dir@
    }

    pub closed spec fn layout(&self) -> Seq<char> {
        self.base_template@
    }

    /// An engine over the two directories, with the layout text
    /// `base_template` read once from its file.
    pub fn new(templates_dir: &str, pages_dir: &str, base_template: String) -> (r: TemplateEngine)
        ensures
            r.templates_dir_spec() == templates_dir@,
            r.pages_dir_spec() == pages_dir@,
            r.layout() == base_template@,
    {
        TemplateEngine {
            templates_dir: String::from_str(templates_dir),
            pages_dir: String::from_str(pages_dir),
            base_template,
        }
    }

    /// The directory the fragments are read from.
    pub fn templates_dir(&self) -> (r: &str)
        ensures
            r@ == self.templates_dir_spec(),
    {
        self.templates_dir.as_str()
    }

    /// The directory the pages are written to.
    pub fn pages_dir(&self) -> (r: &str)
        ensures
            r@ == self.pages_dir_spec(),
    {
        self.pages_dir.as_str()
    }

    /// The layout text.
    pub fn base_template(&self) -> (r: &str)
        ensures
            r@ == self.layout(),
    {
        self.base_template.as_str()
    }

    /// The page for a fragment whose text is `template_content`.
    pub fn render_page(&self, template_content: &str) -> (r: String)
        ensures
            r@ == page_of(template_content@, self.layout()),
    {
        render(template_content, self.base_template.as_str())
    }

    /// A generation pass over this engine's directories, at its start.
    pub fn start_pass(&self) -> (r: Pass)
        ensures
            r.layout() == self.layout(),
            r.stage() == Stage::CreateDest,
    {
        Pass::new(self.base_template.as_str())
    }
}

/// What the command line asks for.
pub struct Config {
    pub templates_dir: String,
    pub pages_dir: String,
    pub base_template_path: String,
    pub watch: bool,
}

/// The token that turns watch mode on.
pub open spec fn watch_flag() -> Seq<char> {
    seq!['-', 'w']
}

impl Config {
    /// Reads the command line `args`, program name first: three paths, then
    /// optionally the watch flag. Any other count is a `Config` error; a
    /// fourth argument other than the flag leaves watch mode off.
    pub fn from_args(args: &Vec<String>) -> (r: Result<Config, PageError>)
        ensures
            r is Err <==> (args@.len() < 4 || args@.len() > 5),
            r is Err ==> r->Err_0 is Config,
            r is Ok ==> ({
                let c = r->Ok_0;
                &&& c.templates_dir@ == args@[1]@
                &&& c.pages_dir@ == args@[2]@
                &&& c.base_template_path@ == args@[3]@
                &&& c.watch == (args@.len() == 5 && args@[4]@ == watch_flag())
            }),
    {
        if args.len() < 4 || args.len() > 5 {
            return Err(PageError::Config);
        }
        let watch = if args.len() == 5 {
            proof {
                reveal_strlit("-w");
            }
            let flag = String::from_str("-w");
            assert(flag@ =~= watch_flag());
            args[4] == flag
        } else {
            false
        };
        Ok(
            Config {
                templates_dir: args[1].clone(),
                pages_dir: args[2].clone(),
                base_template_path: args[3].clone(),
                watch,
            },
        )
    }
}

} // verus!

//! The configuration that steers a changelog build.

use vstd::prelude::*;

verus! {

/// Mathematical view of a [`Github`].
#[verifier::ext_equal]
pub ghost struct GithubView {
    pub repo: Seq<char>,
}

/// The hosting-platform repository the changelog links to.
pub struct Github {
    pub repo: String,
}

impl View for Github {
    type V = GithubView;

    open spec fn view(&self) -> GithubView {
        GithubView { repo: self.repo@ }
    }
}

/// Mathematical view of a [`Config`].
#[verifier::ext_equal]
pub ghost struct ConfigView {
    pub github: Option<GithubView>,
    pub accept_types: Option<Seq<Seq<char>>>,
    pub type_headers: Seq<(Seq<char>, Seq<char>)>,
    pub scope_headers: Seq<(Seq<char>, Seq<char>)>,
    pub root_commit: Option<Seq<char>>,
    pub ignore_commits: Seq<Seq<char>>,
    pub contributor_footers: Seq<Seq<char>>,
    pub template: Option<Seq<char>>,
    pub metadata: Option<Seq<char>>,
}

/// The configuration: which change types to accept, how to display type
/// and scope tokens, which footers name contributors, and the optional
/// template and metadata texts.
pub struct Config {
    pub github: Option<Github>,
    pub accept_types: Option<Vec<String>>,
    pub type_headers: Vec<(String, String)>,
    pub scope_headers: Vec<(String, String)>,
    /// The root commit to start the change log from.
    pub root_commit: Option<String>,
    /// A list of commits to ignore.
    pub ignore_commits: Vec<String>,
    /// The footer tokens (e.g. `Co-authored-by`) that name contributors.
    pub contributor_footers: Vec<String>,
    pub template: Option<String>,
    pub metadata: Option<String>,
}

/// The views of a list of header pairs.
pub open spec fn pair_views(v: Seq<(String, String)>) -> Seq<(Seq<char>, Seq<char>)> {
    v.map_values(|p: (String, String)| (p.0@, p.1@))
}

impl View for Config {
    type V = ConfigView;

    open spec fn view(&self) -> ConfigView {
        ConfigView {
            github: match self.github {
                Some(g) => Some(g@),
                None => None,
            },
            accept_types: match self.accept_types {
                Some(v) => Some(crate::text::str_views(v@)),
                None => None,
            },
            type_headers: pair_views(self.type_headers@),
            scope_headers: pair_views(self.scope_headers@),
            root_commit: match self.root_commit {
                Some(s) => Some(s@),
                None => None,
            },
            ignore_commits: crate::text::str_views(self.ignore_commits@),
            contributor_footers: crate::text::str_views(self.contributor_footers@),
            template: match self.template {
                Some(s) => Some(s@),
                None => None,
            },
            metadata: match self.metadata {
                Some(s) => Some(s@),
                None => None,
            },
        }
    }
}

impl Default for Config {
    /// The stock configuration: no accept-type filter, the common
    /// display headers for the well-known change types, and the common
    /// contributor footer tokens.
    fn default() -> (r: Config)
        ensures
            r@.github is None,
            r@.accept_types is None,
            r@.scope_headers =~= Seq::<(Seq<char>, Seq<char>)>::empty(),
            r@.root_commit is None,
            r@.ignore_commits =~= Seq::<Seq<char>>::empty(),
            r@.template is None,
            r@.metadata is None,
            r@.type_headers =~= seq![
                ("fix"@, "Bug Fixes"@),
                ("style"@, "Code Styling"@),
                ("docs"@, "Documentation"@),
                ("feat"@, "Features"@),
                ("perf"@, "Performance Improvements"@),
                ("refactor"@, "Refactoring"@),
                ("test"@, "Tests"@),
                ("chore"@, "Miscellaneous Tasks"@),
            ],
            r@.contributor_footers =~= seq![
                "co-authored-by"@,
                "signed-off-by"@,
                "reported-by"@,
                "tested-by"@,
                "reviewed-by"@,
                "suggested-by"@,
                "acked-by"@,
            ],
    {
        let mut type_headers: Vec<(String, String)> = Vec::new();
        type_headers.push(("fix".to_owned(), "Bug Fixes".to_owned()));
        type_headers.push(("style".to_owned(), "Code Styling".to_owned()));
        type_headers.push(("docs".to_owned(), "Documentation".to_owned()));
        type_headers.push(("feat".to_owned(), "Features".to_owned()));
        type_headers.push(("perf".to_owned(), "Performance Improvements".to_owned()));
        type_headers.push(("refactor".to_owned(), "Refactoring".to_owned()));
        type_headers.push(("test".to_owned(), "Tests".to_owned()));
        type_headers.push(("chore".to_owned(), "Miscellaneous Tasks".to_owned()));
        let mut contributor_footers: Vec<String> = Vec::new();
        contributor_footers.push("co-authored-by".to_owned());
        contributor_footers.push("signed-off-by".to_owned());
        contributor_footers.push("reported-by".to_owned());
        contributor_footers.push("tested-by".to_owned());
        contributor_footers.push("reviewed-by".to_owned());
        contributor_footers.push("suggested-by".to_owned());
        contributor_footers.push("acked-by".to_owned());
        Config {
            github: None,
            accept_types: None,
            type_headers,
            scope_headers: Vec::new(),
            root_commit: None,
            ignore_commits: Vec::new(),
            contributor_footers,
            template: None,
            metadata: None,
        }
    }
}

} // verus!

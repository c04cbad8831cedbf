//! Host and schema naming for wiki replica databases.  The connection
//! pools themselves live outside the verified core; this module computes
//! the names they are opened with.

use crate::text::str_eq;
use crate::text::string_push;
use crate::text::string_push_str;
use crate::toolforge_app::ToolforgeApp;
use vstd::prelude::*;
use vstd::string::StrSliceExecFns;

verus! {

/// A database server host name paired with a schema (database) name.
#[derive(Debug, PartialEq, Eq)]
pub struct HostSchema {
    host: String,
    schema: String,
}

impl HostSchema {
    pub closed spec fn host_view(self) -> Seq<char> {
        self.host@
    }

    pub closed spec fn schema_view(self) -> Seq<char> {
        self.schema@
    }

    pub fn new(host: &str, schema: &str) -> (r: Self)
        ensures
            r.host_view() == host@,
            r.schema_view() == schema@,
    {
        HostSchema { host: host.to_owned(), schema: schema.to_owned() }
    }

    pub fn host(&self) -> (r: &str)
        ensures
            r@ == self.host_view(),
    {
        self.host.as_str()
    }

    pub fn schema(&self) -> (r: &str)
        ensures
            r@ == self.schema_view(),
    {
        self.schema.as_str()
    }
}

/// Every dash replaced by an underscore.
pub open spec fn spec_underscored(s: Seq<char>) -> Seq<char> {
    s.map_values(
        |c: char|
            if c == '-' {
                '_'
            } else {
                c
            },
    )
}

/// The canonical replica database name of a wiki: the historical aliases
/// collapse to `be_x_oldwiki`, and dashes become underscores.
pub open spec fn spec_fixed_wiki_name(s: Seq<char>) -> Seq<char> {
    if s == "be-taraskwiki"@ || s == "be-x-oldwiki"@ || s == "be_taraskwiki"@ || s
        == "be_x_oldwiki"@ {
        "be_x_oldwiki"@
    } else {
        spec_underscored(s)
    }
}

/// Knows how wiki names map to replica database hosts and schemas; the
/// platform flag decides between local and Toolforge-side addressing.
pub struct ToolforgeDB {
    is_on_toolforge: bool,
}

impl ToolforgeDB {
    pub closed spec fn on_toolforge(self) -> bool {
        self.is_on_toolforge
    }

    /// Builds the helper by probing the platform.
    pub fn new() -> Self {
        ToolforgeDB { is_on_toolforge: ToolforgeApp::is_on_toolforge() }
    }

    /// Builds the helper for a known platform; tests pin the flag this
    /// way.
    pub fn with_platform(is_on_toolforge: bool) -> (r: Self)
        ensures
            r.on_toolforge() == is_on_toolforge,
    {
        ToolforgeDB { is_on_toolforge }
    }

    /// The canonical replica database name of a wiki.
    pub fn fix_wiki_db_name(wiki: &str) -> (r: String)
        ensures
            r@ == spec_fixed_wiki_name(wiki@),
    {
        if str_eq(wiki, "be-taraskwiki") || str_eq(wiki, "be-x-oldwiki") || str_eq(
            wiki,
            "be_taraskwiki",
        ) || str_eq(wiki, "be_x_oldwiki") {
            return "be_x_oldwiki".to_owned();
        }
        let n = wiki.unicode_len();
        let mut out = String::new();
        let mut i: usize = 0;
        while i < n
            invariant
                n == wiki@.len(),
                i <= n,
                out@.len() == i,
                forall|j: int|
                    0 <= j < i ==> out@[j] == (if wiki@[j] == '-' {
                        '_'
                    } else {
                        wiki@[j]
                    }),
            decreases n - i,
        {
            let c = wiki.get_char(i);
            if c == '-' {
                string_push(&mut out, '_');
            } else {
                string_push(&mut out, c);
            }
            i = i + 1;
        }
        proof {
            assert(out@ =~= spec_underscored(wiki@));
        }
        out
    }

    /// The group suffix of the replica servers reachable from Toolforge.
    pub fn get_db_server_group(&self) -> (r: &str)
        ensures
            self.on_toolforge() ==> r@ == ".web.db.svc.eqiad.wmflabs"@,
            !self.on_toolforge() ==> r@ == ""@,
    {
        if self.is_on_toolforge {
            ".web.db.svc.eqiad.wmflabs"
        } else {
            ""
        }
    }

    /// The server and database name for a wiki.
    pub fn db_host_and_schema_for_wiki(&self, wiki: &str) -> (r: HostSchema)
        ensures
            r.schema_view() == spec_fixed_wiki_name(wiki@) + "_p"@,
            self.on_toolforge() ==> r.host_view() == spec_fixed_wiki_name(wiki@)
                + ".web.db.svc.eqiad.wmflabs"@,
            !self.on_toolforge() ==> r.host_view() == "127.0.0.1"@,
    {
        let fixed = Self::fix_wiki_db_name(wiki);
        let host: String = if self.is_on_toolforge {
            let mut h = fixed.clone();
            string_push_str(&mut h, self.get_db_server_group());
            h
        } else {
            "127.0.0.1".to_owned()
        };
        let mut schema = fixed;
        string_push_str(&mut schema, "_p");
        HostSchema { host, schema }
    }

    /// The server holding the tool's own database.
    pub fn get_db_host_for_tool_db(&self) -> (r: &str)
        ensures
            self.on_toolforge() ==> r@ == "tools.labsdb"@,
            !self.on_toolforge() ==> r@ == "127.0.0.1"@,
    {
        if self.is_on_toolforge {
            "tools.labsdb"
        } else {
            "127.0.0.1"
        }
    }
}

} // verus!

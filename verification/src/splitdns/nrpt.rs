//! The Windows name resolution policy table.

use vstd::prelude::*;

use crate::text;

verus! {

/// The only resolver that rules steer to.
pub const NAMESERVER: &'static str = "127.0.0.1";

/// A rule of the table.
#[derive(Debug, Clone, PartialEq, Eq)]
pub struct NrptRule {
    pub namespace: String,
    pub comment: String,
    /// What the rule is removed by.
    pub guid: String,
}

/// A parameter of one of the table's methods. The methods take names and
/// resolvers as lists, also where there is one.
#[derive(Debug)]
pub enum Val {
    Str(String),
    StrArray(Vec<String>),
}

/// Model of a [`Val`].
pub enum ValView {
    Str(Seq<char>),
    StrArray(Seq<Seq<char>>),
}

impl View for Val {
    type V = ValView;

    open spec fn view(&self) -> ValView {
        match *self {
            Val::Str(s) => ValView::Str(s@),
            Val::StrArray(v) => ValView::StrArray(text::strs(v@)),
        }
    }
}

/// Names and values of parameters.
pub open spec fn params(v: Seq<(&'static str, Val)>) -> Seq<(Seq<char>, ValView)> {
    v.map_values(|p: (&'static str, Val)| (p.0@, p.1@))
}

/// Parameters of the method that installs a rule: the name, the loopback
/// resolver and the tag.
pub fn add(namespace: &str, comment: &str) -> (r: Vec<(&'static str, Val)>)
    ensures
        params(r@) == seq![
            ("Namespace"@, ValView::StrArray(seq![namespace@])),
            ("NameServers"@, ValView::StrArray(seq![NAMESERVER@])),
            ("Comment"@, ValView::Str(comment@)),
        ],
{
    let mut names: Vec<String> = Vec::new();
    names.push(namespace.to_owned());
    let mut servers: Vec<String> = Vec::new();
    servers.push(NAMESERVER.to_owned());
    assert(text::strs(names@) =~= seq![namespace@]);
    assert(text::strs(servers@) =~= seq![NAMESERVER@]);
    let mut out: Vec<(&'static str, Val)> = Vec::new();
    out.push(("Namespace", Val::StrArray(names)));
    out.push(("NameServers", Val::StrArray(servers)));
    out.push(("Comment", Val::Str(comment.to_owned())));
    assert(params(out@) =~= seq![
        ("Namespace"@, ValView::StrArray(seq![namespace@])),
        ("NameServers"@, ValView::StrArray(seq![NAMESERVER@])),
        ("Comment"@, ValView::Str(comment@)),
    ]);
    out
}

/// Parameters of the method that removes a rule: what it is removed by, not
/// its name.
pub fn remove(guid: &str) -> (r: Vec<(&'static str, Val)>)
    ensures
        params(r@) == seq![("Name"@, ValView::Str(guid@))],
{
    let mut out: Vec<(&'static str, Val)> = Vec::new();
    out.push(("Name", Val::Str(guid.to_owned())));
    assert(params(out@) =~= seq![("Name"@, ValView::Str(guid@))]);
    out
}

/// Whether a lower-cased failure text names a denial of access.
pub open spec fn says_denied(low: Seq<char>) -> bool {
    ||| text::contains(low, "80041003"@)
    ||| text::contains(low, "80070005"@)
    ||| text::contains(low, "-2145588093"@)
    ||| text::contains(low, "-2147024891"@)
    ||| text::contains(low, "access is denied"@)
}

/// Whether a failure text that is already in lower case names a denial.
pub fn lowered_is_denied(low: &str) -> (r: bool)
    ensures
        r == says_denied(low@),
{
    let cs = text::chars(low);
    text::has_str(cs.as_slice(), "80041003") || text::has_str(cs.as_slice(), "80070005")
        || text::has_str(cs.as_slice(), "-2145588093") || text::has_str(
        cs.as_slice(),
        "-2147024891",
    ) || text::has_str(cs.as_slice(), "access is denied")
}

/// Whether a failure is a denial of access, as a write without the service's
/// rights meets it.
pub fn err_is_access_denied(e: &str) -> (r: bool)
    ensures
        r == says_denied(text::lowercase(e@)),
{
    let low = text::to_lowercase(e);
    lowered_is_denied(low.as_str())
}

/// Law: a failure is a denial of access exactly if it says so in words or by
/// one of the four codes, wherever it stands.
pub proof fn law_denials(low: Seq<char>)
    ensures
        (exists|i: int| #[trigger] text::stands_at(low, "access is denied"@, i)) ==> says_denied(
            low,
        ),
        (exists|i: int| #[trigger] text::stands_at(low, "80041003"@, i)) ==> says_denied(low),
        (exists|i: int| #[trigger] text::stands_at(low, "80070005"@, i)) ==> says_denied(low),
        (exists|i: int| #[trigger] text::stands_at(low, "-2145588093"@, i)) ==> says_denied(low),
        (exists|i: int| #[trigger] text::stands_at(low, "-2147024891"@, i)) ==> says_denied(low),
        low.len() < 8 ==> !says_denied(low),
{
    reveal_strlit("access is denied");
    reveal_strlit("80041003");
    reveal_strlit("80070005");
    reveal_strlit("-2145588093");
    reveal_strlit("-2147024891");
    text::lemma_contains(low, "access is denied"@);
    text::lemma_contains(low, "80041003"@);
    text::lemma_contains(low, "80070005"@);
    text::lemma_contains(low, "-2145588093"@);
    text::lemma_contains(low, "-2147024891"@);
}

} // verus!

//! Engine configurations.
//!
//! A `Config` is a value describing a desired app network: a map from app
//! name to app configuration, and a set of link specifications of the form
//! `"<app>.<port> -> <app>.<port>"`. Configs are built up with `app` and
//! `link` and handed to `engine::configure`. The literal spec string keys
//! the link table, so differently-spaced spellings of the same edge denote
//! different links.

use vstd::prelude::*;

verus! {

use crate::engine::AppConfig;

/// A parsed link specification: the producing app and port, and the
/// consuming app and port.
pub struct LinkSpec {
    pub from: String,
    pub output: String,
    pub to: String,
    pub input: String,
}

/// The four fields of a parsed link specification, at the spec level.
pub struct LinkParts {
    pub from: Seq<char>,
    pub output: Seq<char>,
    pub to: Seq<char>,
    pub input: Seq<char>,
}

/// Whitespace that may appear around tokens in a link specification.
pub open spec fn is_space(c: char) -> bool {
    c == ' ' || c == '\t'
}

/// A character that may start an identifier.
pub open spec fn is_ident_start(c: char) -> bool {
    ('A' <= c && c <= 'Z') || ('a' <= c && c <= 'z') || c == '_'
}

/// A character that may continue an identifier.
pub open spec fn is_ident_char(c: char) -> bool {
    is_ident_start(c) || ('0' <= c && c <= '9')
}

/// First position at or after `i` holding a non-space character (or the
/// end of the string).
pub open spec fn skip_ws(s: Seq<char>, i: int) -> int
    decreases s.len() - i,
{
    if i < s.len() && is_space(s[i]) {
        skip_ws(s, i + 1)
    } else {
        i
    }
}

/// First position at or after `i` that does not continue an identifier.
pub open spec fn scan_ident(s: Seq<char>, i: int) -> int
    decreases s.len() - i,
{
    if i < s.len() && is_ident_char(s[i]) {
        scan_ident(s, i + 1)
    } else {
        i
    }
}

pub proof fn lemma_skip_ws_bounds(s: Seq<char>, i: int)
    requires
        0 <= i <= s.len(),
    ensures
        i <= skip_ws(s, i) <= s.len(),
    decreases s.len() - i,
{
    if i < s.len() && is_space(s[i]) {
        lemma_skip_ws_bounds(s, i + 1);
    }
}

pub proof fn lemma_scan_ident_bounds(s: Seq<char>, i: int)
    requires
        0 <= i <= s.len(),
    ensures
        i <= scan_ident(s, i) <= s.len(),
    decreases s.len() - i,
{
    if i < s.len() && is_ident_char(s[i]) {
        lemma_scan_ident_bounds(s, i + 1);
    }
}

/// The link-spec grammar: `<ident>.<ident> -> <ident>.<ident>` with
/// whitespace permitted around tokens, where an identifier is
/// `[A-Za-z_][A-Za-z0-9_]*`. Returns the four identifiers when the whole
/// string matches, and nothing otherwise.
pub open spec fn parse_spec(s: Seq<char>) -> Option<LinkParts> {
    let i0 = skip_ws(s, 0);  // start of the from-app identifier
    let i1 = scan_ident(s, i0);
    let d1 = skip_ws(s, i1);  // position of the first '.'
    let o0 = skip_ws(s, d1 + 1);  // start of the output-port identifier
    let o1 = scan_ident(s, o0);
    let a0 = skip_ws(s, o1);  // position of the "->" arrow
    let t0 = skip_ws(s, a0 + 2);  // start of the to-app identifier
    let t1 = scan_ident(s, t0);
    let d2 = skip_ws(s, t1);  // position of the second '.'
    let p0 = skip_ws(s, d2 + 1);  // start of the input-port identifier
    let p1 = scan_ident(s, p0);
    let e = skip_ws(s, p1);
    if i0 < s.len() && is_ident_start(s[i0]) && i1 > i0 && d1 < s.len() && s[d1] == '.' && o0
        < s.len() && is_ident_start(s[o0]) && o1 > o0 && a0 + 1 < s.len() && s[a0] == '-' && s[a0
        + 1] == '>' && t0 < s.len() && is_ident_start(s[t0]) && t1 > t0 && d2 < s.len() && s[d2]
        == '.' && p0 < s.len() && is_ident_start(s[p0]) && p1 > p0 && e == s.len() {
        Some(
            LinkParts {
                from: s.subrange(i0, i1),
                output: s.subrange(o0, o1),
                to: s.subrange(t0, t1),
                input: s.subrange(p0, p1),
            },
        )
    } else {
        None
    }
}

fn is_space_char(c: char) -> (r: bool)
    ensures
        r == is_space(c),
{
    c == ' ' || c == '\t'
}

fn is_ident_start_char(c: char) -> (r: bool)
    ensures
        r == is_ident_start(c),
{
    ('A' <= c && c <= 'Z') || ('a' <= c && c <= 'z') || c == '_'
}

fn is_ident_char_exec(c: char) -> (r: bool)
    ensures
        r == is_ident_char(c),
{
    is_ident_start_char(c) || ('0' <= c && c <= '9')
}

fn skip_ws_exec(s: &str, i: usize, n: usize) -> (j: usize)
    requires
        i <= n,
        n == s@.len(),
    ensures
        i <= j <= n,
        j == skip_ws(s@, i as int),
    decreases n - i,
{
    if i < n && is_space_char(s.get_char(i)) {
        skip_ws_exec(s, i + 1, n)
    } else {
        i
    }
}

fn scan_ident_exec(s: &str, i: usize, n: usize) -> (j: usize)
    requires
        i <= n,
        n == s@.len(),
    ensures
        i <= j <= n,
        j == scan_ident(s@, i as int),
    decreases n - i,
{
    if i < n && is_ident_char_exec(s.get_char(i)) {
        scan_ident_exec(s, i + 1, n)
    } else {
        i
    }
}

/// Parse a link specification against the grammar, returning its four
/// identifiers, or nothing when the string does not match.
pub fn parse_link(s: &str) -> (r: Option<LinkSpec>)
    ensures
        r is Some <==> parse_spec(s@) is Some,
        r matches Some(ls) ==> {
            &&& parse_spec(s@) matches Some(lp)
            &&& ls.from@ == lp.from
            &&& ls.output@ == lp.output
            &&& ls.to@ == lp.to
            &&& ls.input@ == lp.input
        },
{
    let n = s.unicode_len();
    let i0 = skip_ws_exec(s, 0, n);
    if !(i0 < n && is_ident_start_char(s.get_char(i0))) {
        return None;
    }
    let i1 = scan_ident_exec(s, i0, n);
    if !(i1 > i0) {
        return None;
    }
    let d1 = skip_ws_exec(s, i1, n);
    if !(d1 < n && s.get_char(d1) == '.') {
        return None;
    }
    let o0 = skip_ws_exec(s, d1 + 1, n);
    if !(o0 < n && is_ident_start_char(s.get_char(o0))) {
        return None;
    }
    let o1 = scan_ident_exec(s, o0, n);
    if !(o1 > o0) {
        return None;
    }
    let a0 = skip_ws_exec(s, o1, n);
    if !(a0 < n && a0 + 1 < n && s.get_char(a0) == '-' && s.get_char(a0 + 1) == '>') {
        return None;
    }
    let t0 = skip_ws_exec(s, a0 + 2, n);
    if !(t0 < n && is_ident_start_char(s.get_char(t0))) {
        return None;
    }
    let t1 = scan_ident_exec(s, t0, n);
    if !(t1 > t0) {
        return None;
    }
    let d2 = skip_ws_exec(s, t1, n);
    if !(d2 < n && s.get_char(d2) == '.') {
        return None;
    }
    let p0 = skip_ws_exec(s, d2 + 1, n);
    if !(p0 < n && is_ident_start_char(s.get_char(p0))) {
        return None;
    }
    let p1 = scan_ident_exec(s, p0, n);
    if !(p1 > p0) {
        return None;
    }
    let e = skip_ws_exec(s, p1, n);
    if !(e == n) {
        return None;
    }
    Some(
        LinkSpec {
            from: s.substring_char(i0, i1).to_owned(),
            output: s.substring_char(o0, o1).to_owned(),
            to: s.substring_char(t0, t1).to_owned(),
            input: s.substring_char(p0, p1).to_owned(),
        },
    )
}

/// Compare two string slices character by character.
pub fn str_eq(a: &str, b: &str) -> (r: bool)
    ensures
        r == (a@ == b@),
{
    let na = a.unicode_len();
    let nb = b.unicode_len();
    if na != nb {
        return false;
    }
    let mut i: usize = 0;
    while i < na
        invariant
            i <= na,
            na == a@.len(),
            nb == b@.len(),
            na == nb,
            forall|k: int| 0 <= k < i ==> a@[k] == b@[k],
        decreases na - i,
    {
        if s_ne(a.get_char(i), b.get_char(i)) {
            return false;
        }
        i = i + 1;
    }
    proof {
        assert(a@ =~= b@);
    }
    true
}

/// Whether two characters differ.
fn s_ne(x: char, y: char) -> (r: bool)
    ensures
        r == (x != y),
{
    x != y
}

/// A binding of an app name to the configuration that should run under
/// that name.
pub struct AppDecl {
    pub name: String,
    pub conf: AppConfig,
}

/// A desired app network: named app configurations and the link
/// specifications that wire their ports together.
pub struct Config {
    pub apps: Vec<AppDecl>,
    pub links: Vec<String>,
}

impl Config {
    /// Whether some app is declared under `name`.
    pub open spec fn has_app(&self, name: Seq<char>) -> bool {
        exists|k: int| 0 <= k < self.apps@.len() && (#[trigger] self.apps@[k]).name@ == name
    }

    /// Index of the app declared under `name`.
    pub open spec fn app_index(&self, name: Seq<char>) -> int {
        choose|k: int| 0 <= k < self.apps@.len() && (#[trigger] self.apps@[k]).name@ == name
    }

    /// The configuration declared under `name`.
    pub open spec fn app_conf(&self, name: Seq<char>) -> AppConfig {
        self.apps@[self.app_index(name)].conf
    }

    /// Whether `spec` is among the declared link specifications.
    pub open spec fn has_link(&self, spec: Seq<char>) -> bool {
        exists|k: int| 0 <= k < self.links@.len() && (#[trigger] self.links@[k])@ == spec
    }

    /// App names are unique, link specifications are unique, and every
    /// link specification matches the grammar.
    pub open spec fn wf(&self) -> bool {
        &&& (forall|j: int, k: int|
            0 <= j < k < self.apps@.len() ==> (#[trigger] self.apps@[j]).name@ != (
            #[trigger] self.apps@[k]).name@)
        &&& (forall|j: int, k: int|
            0 <= j < k < self.links@.len() ==> (#[trigger] self.links@[j])@ != (
            #[trigger] self.links@[k])@)
        &&& (forall|k: int|
            0 <= k < self.links@.len() ==> parse_spec((#[trigger] self.links@[k])@) is Some)
    }
}

/// Create an empty configuration.
pub fn new() -> (c: Config)
    ensures
        c.wf(),
        c.apps@ =~= Seq::<AppDecl>::empty(),
        c.links@ =~= Seq::<String>::empty(),
{
    Config { apps: Vec::new(), links: Vec::new() }
}

/// Bind `name` to `conf` in the configuration: a fresh binding is
/// appended, an existing binding under the same name is replaced.
pub fn app(c: &mut Config, name: &str, conf: AppConfig)
    requires
        old(c).wf(),
    ensures
        final(c).wf(),
        final(c).links == old(c).links,
        final(c).has_app(name@),
        final(c).app_conf(name@) == conf,
        !old(c).has_app(name@) ==> {
            &&& final(c).apps@.len() == old(c).apps@.len() + 1
            &&& final(c).apps@.subrange(0, old(c).apps@.len() as int) == old(c).apps@
            &&& final(c).apps@.last().name@ == name@
            &&& final(c).apps@.last().conf == conf
        },
        old(c).has_app(name@) ==> {
            &&& final(c).apps@.len() == old(c).apps@.len()
            &&& (forall|k: int|
                0 <= k < final(c).apps@.len() && k != old(c).app_index(name@)
                    ==> final(c).apps@[k] == old(c).apps@[k])
            &&& final(c).apps@[old(c).app_index(name@)].name@ == name@
            &&& final(c).apps@[old(c).app_index(name@)].conf == conf
        },
{
    let n = c.apps.len();
    let mut i: usize = 0;
    while i < n
        invariant
            i <= n,
            n == c.apps@.len(),
            old(c).wf(),
            c == old(c),
            forall|k: int| 0 <= k < i ==> c.apps@[k].name@ != name@,
        decreases n - i,
    {
        if str_eq(c.apps[i].name.as_str(), name) {
            proof {
                assert(old(c).has_app(name@));
                assert(old(c).app_index(name@) == i as int);
            }
            let decl = AppDecl { name: name.to_owned(), conf };
            c.apps.set(i, decl);
            proof {
                assert forall|j: int, k: int|
                    0 <= j < k < c.apps@.len() implies (#[trigger] c.apps@[j]).name@ != (
                    #[trigger] c.apps@[k]).name@ by {
                    assert(old(c).apps@[j].name@ != old(c).apps@[k].name@);
                }
                assert(c.has_app(name@));
                assert(c.app_index(name@) == i as int);
            }
            return ;
        }
        i = i + 1;
    }
    proof {
        assert(!old(c).has_app(name@));
    }
    let decl = AppDecl { name: name.to_owned(), conf };
    c.apps.push(decl);
    proof {
        assert forall|j: int, k: int|
            0 <= j < k < c.apps@.len() implies (#[trigger] c.apps@[j]).name@ != (
        #[trigger] c.apps@[k]).name@ by {
            if k < old(c).apps@.len() {
                assert(old(c).apps@[j].name@ != old(c).apps@[k].name@);
            } else {
                assert(c.apps@[k].name@ == name@);
                assert(old(c).apps@[j].name@ != name@);
            }
        }
        assert(c.apps@.subrange(0, old(c).apps@.len() as int) =~= old(c).apps@);
        assert(c.has_app(name@));
        assert(c.app_index(name@) == old(c).apps@.len() as int);
    }
}

/// Add a link specification to the configuration; adding one that is
/// already present changes nothing. The specification must match the
/// grammar.
pub fn link(c: &mut Config, spec: &str)
    requires
        old(c).wf(),
        parse_spec(spec@) is Some,
    ensures
        final(c).wf(),
        final(c).apps == old(c).apps,
        final(c).has_link(spec@),
        !old(c).has_link(spec@) ==> {
            &&& final(c).links@.len() == old(c).links@.len() + 1
            &&& final(c).links@.subrange(0, old(c).links@.len() as int) == old(c).links@
            &&& final(c).links@.last()@ == spec@
        },
        old(c).has_link(spec@) ==> final(c).links == old(c).links,
{
    let n = c.links.len();
    let mut i: usize = 0;
    while i < n
        invariant
            i <= n,
            n == c.links@.len(),
            old(c).wf(),
            c == old(c),
            forall|k: int| 0 <= k < i ==> c.links@[k]@ != spec@,
        decreases n - i,
    {
        if str_eq(c.links[i].as_str(), spec) {
            proof {
                assert(old(c).has_link(spec@));
            }
            return ;
        }
        i = i + 1;
    }
    proof {
        assert(!old(c).has_link(spec@));
    }
    c.links.push(spec.to_owned());
    proof {
        assert forall|j: int, k: int|
            0 <= j < k < c.links@.len() implies (#[trigger] c.links@[j])@ != (
        #[trigger] c.links@[k])@ by {
            if k < old(c).links@.len() {
                assert(old(c).links@[j]@ != old(c).links@[k]@);
            } else {
                assert(c.links@[k]@ == spec@);
                assert(old(c).links@[j]@ != spec@);
            }
        }
        assert(c.links@.subrange(0, old(c).links@.len() as int) =~= old(c).links@);
        assert((c.links@[old(c).links@.len() as int])@ == spec@);
        assert(c.has_link(spec@));
    }
}

} // verus!

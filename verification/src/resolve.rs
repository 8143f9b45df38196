//! Name resolution for the whole config, in one pass before anything is built.
//!
//! Every unique name is resolved once, so a rotating pool cannot make two
//! aliases disagree, and a failure aborts while nothing has been submitted.
//! The lookups themselves are the caller's; this module decides which names
//! need them and what their outcomes amount to.

use vstd::prelude::*;

use crate::decl::{Alias, Decl, DeclView, Origin, OriginView, Rule};
use crate::map::{lemma_lower_bound, lemma_put, lemma_upsert, lemma_upsert_then_set, lookup, put, sorted_keys, value_or, StrMap};
use crate::sets::Family;
use crate::text::{
    alphabetic, chars_lt, chars_of, dec, dec_chars, push_chars, is_alphabetic, is_digit, lemma_text_lt_asymmetric, lemma_text_lt_irreflexive,
    lemma_text_lt_total, lemma_text_lt_transitive, text_lt,
};

verus! {

/// A host as written in the config, before resolution.
#[derive(Debug, PartialEq, Eq, Clone)]
pub enum Host {
    /// Address or CIDR, used as written.
    Literal(String),
    /// The literal `any`.
    Any,
    /// Needs DNS.
    Name(String),
}

/// The value of a `Host`.
pub enum HostView {
    Literal(Seq<char>),
    Any,
    Name(Seq<char>),
}

impl View for Host {
    type V = HostView;

    open spec fn view(&self) -> HostView {
        match self {
            Host::Literal(s) => HostView::Literal(s@),
            Host::Any => HostView::Any,
            Host::Name(s) => HostView::Name(s@),
        }
    }
}

/// `any` in any ASCII case.
pub open spec fn is_any(h: Seq<char>) -> bool {
    &&& h.len() == 3
    &&& (h[0] == 'a' || h[0] == 'A')
    &&& (h[1] == 'n' || h[1] == 'N')
    &&& (h[2] == 'y' || h[2] == 'Y')
}

/// An address as the shell tells one: a leading digit and no letter, or a colon.
pub open spec fn is_literal(h: Seq<char>) -> bool {
    ||| (h.len() > 0 && is_digit(h[0]) && !(exists|i: int| 0 <= i < h.len() && alphabetic(#[trigger] h[i])))
    ||| h.contains(':')
}

/// How a host is read.
pub open spec fn host_kind(h: Seq<char>) -> HostView {
    if is_any(h) {
        HostView::Any
    } else if is_literal(h) {
        HostView::Literal(h)
    } else {
        HostView::Name(h)
    }
}

fn has_alphabetic(c: &Vec<char>) -> (b: bool)
    ensures
        b == (exists|i: int| 0 <= i < c@.len() && alphabetic(#[trigger] c@[i])),
{
    let mut i: usize = 0;
    while i < c.len()
        invariant
            i <= c@.len(),
            forall|j: int| 0 <= j < i ==> !alphabetic(#[trigger] c@[j]),
        decreases c@.len() - i,
    {
        if is_alphabetic(c[i]) {
            return true;
        }
        i = i + 1;
    }
    false
}

/// Matches fw_alias_host: leading-digit dotted forms and anything with a
/// colon are addresses; `any` is any; everything else is resolved.
pub fn classify(host: &str) -> (h: Host)
    ensures
        h@ == host_kind(host@),
{
    let c = chars_of(host);
    let any = c.len() == 3 && (c[0] == 'a' || c[0] == 'A') && (c[1] == 'n' || c[1] == 'N') && (c[2] == 'y' || c[2] == 'Y');
    if any {
        return Host::Any;
    }
    let digit_first = c.len() > 0 && c[0] >= '0' && c[0] <= '9';
    let literal = (digit_first && !has_alphabetic(&c)) || crate::text::has_char(c.as_slice(), ':');
    if literal {
        Host::Literal(String::from_str(host))
    } else {
        Host::Name(String::from_str(host))
    }
}


/// A resolved address: its family and its text as the system prints it.
#[derive(Debug, Clone)]
pub struct Addr {
    pub family: Family,
    pub text: String,
}

pub struct AddrView {
    pub family: Family,
    pub text: Seq<char>,
}

impl DeepView for Addr {
    type V = AddrView;

    open spec fn deep_view(&self) -> AddrView {
        AddrView { family: self.family, text: self.text@ }
    }
}

/// Every resolved name with its addresses.
pub struct Resolved {
    pub addrs: StrMap<Vec<Addr>>,
}

/// The addresses of `name`, none if it was not resolved.
pub open spec fn addresses(r: Seq<(Seq<char>, Seq<AddrView>)>, name: Seq<char>) -> Seq<AddrView> {
    match lookup(r, name) {
        Some(a) => a,
        None => Seq::empty(),
    }
}

impl Resolved {
    /// The addresses of `name`; empty where it was not resolved.
    pub fn get(&self, name: &str) -> (a: &[Addr])
        ensures
            a.deep_view() == addresses(self.addrs.deep_view(), name@),
    {
        match self.addrs.get(name) {
            Some(v) => v.as_slice(),
            None => {
                let e: &[Addr] = &[];
                assert(e.deep_view() =~= Seq::<AddrView>::empty());
                e
            },
        }
    }
}


/// Where a name was used, so a failure can name it.
#[derive(Debug, Clone)]
pub struct Usage {
    pub context: String,
    pub origin: Origin,
}

pub struct UsageView {
    pub context: Seq<char>,
    pub origin: OriginView,
}

impl DeepView for Usage {
    type V = UsageView;

    open spec fn deep_view(&self) -> UsageView {
        UsageView { context: self.context@, origin: self.origin@ }
    }
}

/// `d` is an alias named `h`.
pub open spec fn alias_named(d: DeclView, h: Seq<char>) -> bool {
    d matches DeclView::Alias(a) && a.name == h
}

/// Some alias is named `h`.
pub open spec fn names_an_alias(decls: Seq<DeclView>, h: Seq<char>) -> bool {
    exists|i: int| 0 <= i < decls.len() && #[trigger] alias_named(decls[i], h)
}

/// `m` with a use of `host` recorded, if `host` needs DNS.
pub open spec fn note_use(
    m: Seq<(Seq<char>, Seq<UsageView>)>,
    host: Seq<char>,
    context: Seq<char>,
    origin: OriginView,
) -> Seq<(Seq<char>, Seq<UsageView>)> {
    match host_kind(host) {
        HostView::Name(n) => put(m, n, value_or(m, n, Seq::empty()).push(UsageView { context, origin })),
        _ => m,
    }
}

/// The names needing DNS among the first `n` declarations, each with the
/// places it is used in order. An alias's own host is resolved; a rule
/// endpoint that names an alias (anywhere in `decls`) is not; empty hosts
/// are skipped.
pub open spec fn names_in(decls: Seq<DeclView>, n: int) -> Seq<(Seq<char>, Seq<UsageView>)>
    decreases n,
{
    if n <= 0 {
        Seq::empty()
    } else {
        let m = names_in(decls, n - 1);
        match decls[n - 1] {
            DeclView::Alias(a) => {
                if a.host.len() == 0 {
                    m
                } else {
                    note_use(m, a.host, "alias "@ + a.name, a.origin)
                }
            },
            DeclView::Rule(r) => {
                let m1 = if r.src.len() == 0 || names_an_alias(decls, r.src) {
                    m
                } else {
                    note_use(m, r.src, "rule source"@, r.origin)
                };
                if r.dst.len() == 0 || names_an_alias(decls, r.dst) {
                    m1
                } else {
                    note_use(m1, r.dst, "rule destination"@, r.origin)
                }
            },
        }
    }
}

proof fn lemma_note_use(
    m: Seq<(Seq<char>, Seq<UsageView>)>,
    host: Seq<char>,
    context: Seq<char>,
    origin: OriginView,
)
    requires
        sorted_keys(m),
    ensures
        sorted_keys(note_use(m, host, context, origin)),
        forall|k: Seq<char>|
            #[trigger] lookup(note_use(m, host, context, origin), k) is Some <==> (lookup(m, k) is Some || (
            host_kind(host) is Name && k == host)),
{
    if let HostView::Name(n) = host_kind(host) {
        lemma_put(m, n, value_or(m, n, Seq::<UsageView>::empty()).push(UsageView { context, origin }));
    }
}

/// `h` is a host that needs DNS: not empty, not `any`, not an address.
pub open spec fn needs_dns(h: Seq<char>) -> bool {
    h.len() > 0 && host_kind(h) is Name
}

/// Declaration `i` asks for `k` to be resolved: an alias whose host it is, or
/// a rule with it as an endpoint that no alias is named.
pub open spec fn asks_for(decls: Seq<DeclView>, i: int, k: Seq<char>) -> bool {
    match decls[i] {
        DeclView::Alias(a) => a.host == k && needs_dns(k),
        DeclView::Rule(r) => needs_dns(k) && !names_an_alias(decls, k) && (r.src == k || r.dst == k),
    }
}

/// The names to resolve are exactly the hosts that need DNS: alias hosts, and
/// rule endpoints that name no alias; each occurs once, in key order.
pub proof fn lemma_names_in(decls: Seq<DeclView>, n: int)
    requires
        0 <= n <= decls.len(),
    ensures
        sorted_keys(names_in(decls, n)),
        forall|k: Seq<char>|
            #[trigger] lookup(names_in(decls, n), k) is Some <==> exists|i: int| 0 <= i < n && #[trigger] asks_for(decls, i, k),
    decreases n,
{
    if n <= 0 {
        assert(sorted_keys(Seq::<(Seq<char>, Seq<UsageView>)>::empty()));
    } else {
        lemma_names_in(decls, n - 1);
        let m = names_in(decls, n - 1);
        match decls[n - 1] {
            DeclView::Alias(a) => {
                if a.host.len() != 0 {
                    lemma_note_use(m, a.host, "alias "@ + a.name, a.origin);
                }
            },
            DeclView::Rule(r) => {
                let m1 = if r.src.len() == 0 || names_an_alias(decls, r.src) {
                    m
                } else {
                    note_use(m, r.src, "rule source"@, r.origin)
                };
                if !(r.src.len() == 0 || names_an_alias(decls, r.src)) {
                    lemma_note_use(m, r.src, "rule source"@, r.origin);
                }
                if !(r.dst.len() == 0 || names_an_alias(decls, r.dst)) {
                    lemma_note_use(m1, r.dst, "rule destination"@, r.origin);
                }
            },
        }
        assert forall|k: Seq<char>| (exists|i: int| 0 <= i < n && #[trigger] asks_for(decls, i, k)) implies #[trigger] lookup(
            names_in(decls, n),
            k,
        ) is Some by {
            let i = choose|i: int| 0 <= i < n && #[trigger] asks_for(decls, i, k);
            if i < n - 1 {
                assert(lookup(m, k) is Some);
            }
        }
        assert forall|k: Seq<char>| #[trigger] lookup(names_in(decls, n), k) is Some implies exists|i: int|
            0 <= i < n && #[trigger] asks_for(decls, i, k) by {
            if lookup(m, k) is Some {
                let i = choose|i: int| 0 <= i < n - 1 && #[trigger] asks_for(decls, i, k);
                assert(asks_for(decls, i, k));
            } else {
                assert(asks_for(decls, n - 1, k));
            }
        }
    }
}

fn record_use(
    m: &mut StrMap<Vec<Usage>>,
    host: &String,
    context: String,
    origin: &Origin,
)
    requires
        old(m).wf(),
    ensures
        final(m).wf(),
        final(m).deep_view() == note_use(old(m).deep_view(), host@, context@, origin@),
{
    match classify(host.as_str()) {
        Host::Name(n) => {
            let ghost s = m.deep_view();
            let ghost k = n@;
            let u = Usage { context, origin: origin.duplicate() };
            let ghost uv = u.deep_view();
            proof {
                m.lemma_wf();
                lemma_upsert(s, k, Seq::<UsageView>::empty());
                lemma_lower_bound(s, k);
                lemma_upsert_then_set(s, k, Seq::<UsageView>::empty(), value_or(s, k, Seq::<UsageView>::empty()).push(uv));
                crate::map::lemma_put(s, k, value_or(s, k, Seq::<UsageView>::empty()).push(uv));
            }
            let empty: Vec<Usage> = Vec::new();
            assert(empty.deep_view() =~= Seq::<UsageView>::empty());
            let i = m.slot(n, empty);
            let v = m.value_mut(i);
            let ghost before = v.deep_view();
            v.push(u);
            assert(v.deep_view() =~= before.push(uv));
            assert(m.deep_view() == put(s, k, value_or(s, k, Seq::<UsageView>::empty()).push(uv)));
            proof {
                m.lemma_wf();
            }
        },
        _ => {},
    }
}

/// Collect every name needing DNS, with the places it is used.
///
/// A rule endpoint naming an alias is not a hostname: the alias supplies the
/// set, and resolving its name would send the alias to DNS.
pub fn names_to_resolve(decls: &[Decl]) -> (names: StrMap<Vec<Usage>>)
    ensures
        names.wf(),
        names.deep_view() == names_in(decls.deep_view(), decls@.len() as int),
{
    let ghost dv = decls.deep_view();
    let mut aliases: Vec<String> = Vec::new();
    let mut i: usize = 0;
    while i < decls.len()
        invariant
            i <= decls@.len(),
            dv == decls.deep_view(),
            aliases.deep_view() == alias_names(dv.take(i as int)),
        decreases decls@.len() - i,
    {
        assert(dv[i as int] == decls@[i as int]@);
        assert(dv.take(i + 1).drop_last() =~= dv.take(i as int));
        let ghost before = aliases.deep_view();
        match &decls[i] {
            Decl::Alias(a) => {
                let n = a.name.clone();
                aliases.push(n);
                assert(aliases.deep_view() =~= before.push(n@));
            },
            Decl::Rule(_) => {},
        }
        i = i + 1;
    }
    assert(dv.take(i as int) =~= dv);
    proof {
        lemma_alias_names(dv);
    }
    let mut names: StrMap<Vec<Usage>> = StrMap::new();
    let mut i: usize = 0;
    while i < decls.len()
        invariant
            i <= decls@.len(),
            dv == decls.deep_view(),
            names.wf(),
            names.deep_view() == names_in(dv, i as int),
            aliases.deep_view() == alias_names(dv),
            forall|h: Seq<char>| #[trigger] alias_names(dv).contains(h) <==> names_an_alias(dv, h),
        decreases decls@.len() - i,
    {
        assert(dv[i as int] == decls@[i as int]@);
        match &decls[i] {
            Decl::Alias(a) => {
                if !a.host.as_str().is_empty() {
                    let mut ctx = String::from_str("alias ");
                    ctx.append(a.name.as_str());
                    record_use(&mut names, &a.host, ctx, &a.origin);
                }
            },
            Decl::Rule(r) => {
                if !r.src.as_str().is_empty() && !contains_string(&aliases, &r.src) {
                    record_use(&mut names, &r.src, String::from_str("rule source"), &r.origin);
                }
                if !r.dst.as_str().is_empty() && !contains_string(&aliases, &r.dst) {
                    record_use(&mut names, &r.dst, String::from_str("rule destination"), &r.origin);
                }
            },
        }
        i = i + 1;
    }
    names
}

fn contains_string(v: &Vec<String>, s: &String) -> (b: bool)
    ensures
        b == v.deep_view().contains(s@),
{
    let mut i: usize = 0;
    while i < v.len()
        invariant
            i <= v@.len(),
            forall|j: int| 0 <= j < i ==> #[trigger] v@[j]@ != s@,
        decreases v@.len() - i,
    {
        if v[i] == *s {
            assert(v.deep_view()[i as int] == s@);
            return true;
        }
        i = i + 1;
    }
    assert forall|j: int| 0 <= j < v.deep_view().len() implies v.deep_view()[j] != s@ by {
        assert(v.deep_view()[j] == v@[j]@);
    }
    false
}

/// The names of the aliases, in order.
pub open spec fn alias_names(decls: Seq<DeclView>) -> Seq<Seq<char>>
    decreases decls.len(),
{
    if decls.len() == 0 {
        Seq::empty()
    } else {
        let r = alias_names(decls.drop_last());
        match decls.last() {
            DeclView::Alias(a) => r.push(a.name),
            _ => r,
        }
    }
}

proof fn lemma_alias_names(decls: Seq<DeclView>)
    ensures
        forall|h: Seq<char>| #[trigger] alias_names(decls).contains(h) <==> names_an_alias(decls, h),
    decreases decls.len(),
{
    if decls.len() > 0 {
        let d = decls.drop_last();
        lemma_alias_names(d);
        assert forall|h: Seq<char>| #[trigger] alias_names(decls).contains(h) <==> names_an_alias(decls, h) by {
            if names_an_alias(decls, h) {
                let i = choose|i: int| 0 <= i < decls.len() && #[trigger] alias_named(decls[i], h);
                if i < decls.len() - 1 {
                    assert(alias_named(d[i], h));
                    assert(alias_names(d).contains(h));
                    let k = choose|k: int| 0 <= k < alias_names(d).len() && alias_names(d)[k] == h;
                    if let DeclView::Alias(a) = decls.last() {
                        assert(alias_names(decls)[k] == h);
                    }
                } else {
                    if let DeclView::Alias(a) = decls.last() {
                        assert(alias_names(decls)[alias_names(decls).len() - 1] == h);
                    }
                }
            }
            if alias_names(decls).contains(h) {
                let k = choose|k: int| 0 <= k < alias_names(decls).len() && alias_names(decls)[k] == h;
                if k < alias_names(d).len() {
                    assert(alias_names(d)[k] == h);
                    assert(alias_names(d).contains(h));
                    let i = choose|i: int| 0 <= i < d.len() && #[trigger] alias_named(d[i], h);
                    assert(alias_named(decls[i], h));
                } else {
                    assert(alias_named(decls[decls.len() - 1], h));
                }
            }
        }
    }
}

/// A failure as reported: the file and line of a use, and what went wrong.
pub type Failure = (Seq<char>, u32, Seq<char>);

/// Report order: by file, then line, then text.
pub open spec fn failure_lt(a: Failure, b: Failure) -> bool {
    ||| text_lt(a.0, b.0)
    ||| (a.0 == b.0 && a.1 < b.1)
    ||| (a.0 == b.0 && a.1 == b.1 && text_lt(a.2, b.2))
}

pub proof fn lemma_failure_lt_order(a: Failure, b: Failure, c: Failure)
    ensures
        !failure_lt(a, a),
        failure_lt(a, b) ==> !failure_lt(b, a),
        failure_lt(a, b) && failure_lt(b, c) ==> failure_lt(a, c),
        a == b || failure_lt(a, b) || failure_lt(b, a),
{
    lemma_text_lt_irreflexive(a.0);
    lemma_text_lt_irreflexive(a.2);
    lemma_text_lt_total(a.0, b.0);
    lemma_text_lt_total(a.2, b.2);
    if text_lt(a.0, b.0) {
        lemma_text_lt_asymmetric(a.0, b.0);
    }
    if text_lt(a.2, b.2) {
        lemma_text_lt_asymmetric(a.2, b.2);
    }
    if failure_lt(a, b) && failure_lt(b, c) {
        if text_lt(a.0, b.0) && text_lt(b.0, c.0) {
            lemma_text_lt_transitive(a.0, b.0, c.0);
        }
        if text_lt(a.2, b.2) && text_lt(b.2, c.2) {
            lemma_text_lt_transitive(a.2, b.2, c.2);
        }
    }
}

/// Strictly increasing in report order: each failure once.
pub open spec fn strictly_sorted(s: Seq<Failure>) -> bool {
    forall|i: int, j: int| 0 <= i < j < s.len() ==> failure_lt(#[trigger] s[i], #[trigger] s[j])
}

/// Index of the first failure not below `x`.
pub open spec fn failure_bound(s: Seq<Failure>, x: Failure) -> int
    decreases s.len(),
{
    if s.len() == 0 {
        0
    } else if failure_lt(s[0], x) {
        failure_bound(s.drop_first(), x) + 1
    } else {
        0
    }
}

/// `x` inserted where report order puts it, unless already there.
pub open spec fn sorted_insert(s: Seq<Failure>, x: Failure) -> Seq<Failure> {
    let p = failure_bound(s, x);
    if p < s.len() && s[p] == x {
        s
    } else {
        s.insert(p, x)
    }
}

/// The failures sorted in report order, each once.
pub open spec fn sorted_unique(f: Seq<Failure>) -> Seq<Failure>
    decreases f.len(),
{
    if f.len() == 0 {
        Seq::empty()
    } else {
        sorted_insert(sorted_unique(f.drop_last()), f.last())
    }
}

proof fn lemma_failure_bound(s: Seq<Failure>, x: Failure)
    requires
        strictly_sorted(s),
    ensures
        0 <= failure_bound(s, x) <= s.len(),
        forall|j: int| 0 <= j < failure_bound(s, x) ==> failure_lt(#[trigger] s[j], x),
        forall|j: int| failure_bound(s, x) <= j < s.len() ==> !failure_lt(#[trigger] s[j], x),
    decreases s.len(),
{
    if s.len() > 0 {
        let t = s.drop_first();
        assert forall|i: int, j: int| 0 <= i < j < t.len() implies failure_lt(#[trigger] t[i], #[trigger] t[j]) by {
            assert(t[i] == s[i + 1]);
            assert(t[j] == s[j + 1]);
        }
        lemma_failure_bound(t, x);
        let p = failure_bound(s, x);
        if failure_lt(s[0], x) {
            assert forall|j: int| 0 <= j < p implies failure_lt(#[trigger] s[j], x) by {
                if j > 0 {
                    assert(s[j] == t[j - 1]);
                }
            }
            assert forall|j: int| p <= j < s.len() implies !failure_lt(#[trigger] s[j], x) by {
                assert(s[j] == t[j - 1]);
            }
        } else {
            assert forall|j: int| 0 <= j < s.len() implies !failure_lt(#[trigger] s[j], x) by {
                if j > 0 && failure_lt(s[j], x) {
                    lemma_failure_lt_order(s[0], s[j], x);
                }
            }
        }
    }
}

proof fn lemma_sorted_insert(s: Seq<Failure>, x: Failure)
    requires
        strictly_sorted(s),
    ensures
        strictly_sorted(sorted_insert(s, x)),
        forall|y: Failure| #[trigger] sorted_insert(s, x).contains(y) <==> (s.contains(y) || y == x),
{
    lemma_failure_bound(s, x);
    let p = failure_bound(s, x);
    let u = sorted_insert(s, x);
    if !(p < s.len() && s[p] == x) {
        assert forall|i: int, j: int| 0 <= i < j < u.len() implies failure_lt(#[trigger] u[i], #[trigger] u[j]) by {
            if j < p {
                assert(u[i] == s[i] && u[j] == s[j]);
            } else if j == p {
                assert(u[i] == s[i]);
            } else if i < p {
                assert(u[i] == s[i]);
                assert(u[j] == s[j - 1]);
                lemma_failure_lt_order(s[p], x, s[j - 1]);
                lemma_failure_lt_order(x, s[p], s[j - 1]);
                lemma_failure_lt_order(s[i], x, s[j - 1]);
                if j - 1 > p {
                    assert(failure_lt(s[p], s[j - 1]));
                }
            } else if i == p {
                assert(u[j] == s[j - 1]);
                lemma_failure_lt_order(s[p], x, s[j - 1]);
                lemma_failure_lt_order(x, s[p], s[j - 1]);
                if j - 1 > p {
                    assert(failure_lt(s[p], s[j - 1]));
                }
            } else {
                assert(u[i] == s[i - 1]);
                assert(u[j] == s[j - 1]);
            }
        }
        assert forall|y: Failure| #[trigger] u.contains(y) <==> (s.contains(y) || y == x) by {
            if u.contains(y) {
                let k = choose|k: int| 0 <= k < u.len() && u[k] == y;
                if k < p {
                    assert(s[k] == y);
                } else if k > p {
                    assert(s[k - 1] == y);
                }
            }
            if s.contains(y) {
                let k = choose|k: int| 0 <= k < s.len() && s[k] == y;
                if k < p {
                    assert(u[k] == y);
                } else {
                    assert(u[k + 1] == y);
                }
            }
            if y == x {
                assert(u[p] == y);
            }
        }
    }
}

/// Every failure is reported once, in order of file, then line, then text.
pub proof fn lemma_report_order(f: Seq<Failure>)
    ensures
        strictly_sorted(sorted_unique(f)),
        forall|y: Failure| #[trigger] sorted_unique(f).contains(y) <==> f.contains(y),
    decreases f.len(),
{
    if f.len() > 0 {
        lemma_report_order(f.drop_last());
        lemma_sorted_insert(sorted_unique(f.drop_last()), f.last());
        assert forall|y: Failure| #[trigger] sorted_unique(f).contains(y) <==> f.contains(y) by {
            if f.drop_last().contains(y) {
                let k = choose|k: int| 0 <= k < f.drop_last().len() && f.drop_last()[k] == y;
                assert(f[k] == y);
            }
            if f.contains(y) && y != f.last() {
                let k = choose|k: int| 0 <= k < f.len() && f[k] == y;
                assert(f.drop_last()[k] == y);
            }
            if y == f.last() {
                assert(f[f.len() - 1] == y);
            }
        }
    } else {
        assert(sorted_unique(f) =~= Seq::<Failure>::empty());
    }
}

impl Addr {
    /// A copy with the same family and text.
    pub(crate) fn duplicate(&self) -> (a: Addr)
        ensures
            a.deep_view() == self.deep_view(),
    {
        Addr { family: self.family, text: self.text.clone() }
    }
}

fn copy_addrs(v: &Vec<Addr>) -> (w: Vec<Addr>)
    ensures
        w.deep_view() == v.deep_view(),
{
    let mut w: Vec<Addr> = Vec::new();
    let mut i: usize = 0;
    while i < v.len()
        invariant
            i <= v@.len(),
            w.deep_view() == v.deep_view().take(i as int),
        decreases v@.len() - i,
    {
        let a = v[i].duplicate();
        let ghost before = w.deep_view();
        w.push(a);
        assert(w.deep_view() =~= before.push(a.deep_view()));
        assert(v.deep_view().take(i + 1) =~= v.deep_view().take(i as int).push(v@[i as int].deep_view()));
        i = i + 1;
    }
    assert(v.deep_view().take(i as int) =~= v.deep_view());
    w
}

/// A lookup outcome as values.
pub open spec fn outcome_view(r: Result<Vec<Addr>, String>) -> Result<Seq<AddrView>, Seq<char>> {
    match r {
        Ok(list) => Ok(list.deep_view()),
        Err(e) => Err(e@),
    }
}

/// The lookup outcomes as values, in order.
pub open spec fn outcomes_view(results: Seq<(String, Result<Vec<Addr>, String>)>) -> Seq<(Seq<char>, Result<Seq<AddrView>, Seq<char>>)> {
    Seq::new(results.len(), |i: int| (results[i].0@, outcome_view(results[i].1)))
}

/// Why an outcome is a failure, if it is: no address at all, or the
/// resolver's error. Having only one family is normal and not an error.
pub open spec fn failure_reason(r: Result<Seq<AddrView>, Seq<char>>) -> Option<Seq<char>> {
    match r {
        Ok(list) => if list.len() > 0 {
            None
        } else {
            Some("no address"@)
        },
        Err(e) => Some(e),
    }
}

/// One failure per place a failed name is used.
pub open spec fn usage_failures(name: Seq<char>, uses: Seq<UsageView>, reason: Seq<char>) -> Seq<Failure> {
    Seq::new(
        uses.len(),
        |i: int| (uses[i].origin.file, uses[i].origin.line, name + " ("@ + uses[i].context + "): "@ + reason),
    )
}

/// Every failure the outcomes make, in the order of the outcomes.
pub open spec fn failures_in(
    names: Seq<(Seq<char>, Seq<UsageView>)>,
    outcomes: Seq<(Seq<char>, Result<Seq<AddrView>, Seq<char>>)>,
) -> Seq<Failure>
    decreases outcomes.len(),
{
    if outcomes.len() == 0 {
        Seq::empty()
    } else {
        let f = failures_in(names, outcomes.drop_last());
        let (name, outcome) = outcomes.last();
        match failure_reason(outcome) {
            None => f,
            Some(reason) => f + usage_failures(name, value_or(names, name, Seq::empty()), reason),
        }
    }
}

/// Every name that got an address, with its addresses.
pub open spec fn resolved_addrs(outcomes: Seq<(Seq<char>, Result<Seq<AddrView>, Seq<char>>)>) -> Seq<(Seq<char>, Seq<AddrView>)>
    decreases outcomes.len(),
{
    if outcomes.len() == 0 {
        Seq::empty()
    } else {
        let m = resolved_addrs(outcomes.drop_last());
        let (name, outcome) = outcomes.last();
        match outcome {
            Ok(list) => if list.len() > 0 {
                put(m, name, list)
            } else {
                m
            },
            Err(_) => m,
        }
    }
}

/// A failure's line of the report: `file:line: text`.
pub open spec fn failure_line(f: Failure) -> Seq<char> {
    f.0 + ":"@ + dec(f.1 as nat) + ": "@ + f.2
}

/// The report: every failure once, in order of file, line and text.
pub open spec fn report_lines(f: Seq<Failure>) -> Seq<Seq<char>> {
    sorted_unique(f).map_values(|x: Failure| failure_line(x))
}

fn failure_less(a: &(String, u32, String), b: &(String, u32, String)) -> (r: bool)
    ensures
        r == failure_lt(a.deep_view(), b.deep_view()),
{
    let af = chars_of(a.0.as_str());
    let bf = chars_of(b.0.as_str());
    if chars_lt(af.as_slice(), bf.as_slice()) {
        return true;
    }
    if a.0 != b.0 {
        return false;
    }
    if a.1 != b.1 {
        return a.1 < b.1;
    }
    let at = chars_of(a.2.as_str());
    let bt = chars_of(b.2.as_str());
    chars_lt(at.as_slice(), bt.as_slice())
}

/// Adds `x` where report order puts it, unless it is already there.
fn add_failure(report: &mut Vec<(String, u32, String)>, x: (String, u32, String))
    requires
        strictly_sorted(old(report).deep_view()),
    ensures
        strictly_sorted(final(report).deep_view()),
        final(report).deep_view() == sorted_insert(old(report).deep_view(), x.deep_view()),
{
    let ghost s = report.deep_view();
    let ghost xv = x.deep_view();
    proof {
        lemma_failure_bound(s, xv);
        lemma_sorted_insert(s, xv);
    }
    let mut i: usize = 0;
    while i < report.len()
        invariant
            s == report.deep_view(),
            xv == x.deep_view(),
            i <= failure_bound(s, xv),
            0 <= failure_bound(s, xv) <= s.len(),
            forall|j: int| failure_bound(s, xv) <= j < s.len() ==> !failure_lt(#[trigger] s[j], xv),
            forall|j: int| 0 <= j < failure_bound(s, xv) ==> failure_lt(#[trigger] s[j], xv),
        ensures
            i == failure_bound(s, xv),
        decreases s.len() - i,
    {
        assert(s[i as int] == report@[i as int].deep_view());
        let less = failure_less(&report[i], &x);
        if !less {
            break;
        }
        i = i + 1;
    }
    if i < report.len() {
        assert(s[i as int] == report@[i as int].deep_view());
        if report[i].0 == x.0 && report[i].1 == x.1 && report[i].2 == x.2 {
            return;
        }
    }
    let ghost before = report@;
    report.insert(i, x);
    assert(report.deep_view() =~= s.insert(i as int, xv));
}

/// Decides what the lookups amount to: the resolved names, or a report of
/// every failure with its file and line. `results` holds each name's outcome,
/// a name without records being an empty list.
pub fn settle(names: &StrMap<Vec<Usage>>, results: &[(String, Result<Vec<Addr>, String>)]) -> (r: Result<Resolved, Vec<String>>)
    ensures
        match r {
            Ok(res) => {
                &&& failures_in(names.deep_view(), outcomes_view(results@)).len() == 0
                &&& res.addrs.wf()
                &&& res.addrs.deep_view() == resolved_addrs(outcomes_view(results@))
            },
            Err(lines) => {
                &&& failures_in(names.deep_view(), outcomes_view(results@)).len() > 0
                &&& lines.deep_view() == report_lines(failures_in(names.deep_view(), outcomes_view(results@)))
            },
        },
{
    let ghost ov = outcomes_view(results@);
    let ghost nv = names.deep_view();
    let mut addrs: StrMap<Vec<Addr>> = StrMap::new();
    // Kept in report order, so the report reads in the order the config
    // files do: cleaning up a run's worth of dead names is one pass through
    // the files rather than one reload per name.
    let mut failures: Vec<(String, u32, String)> = Vec::new();
    let mut i: usize = 0;
    while i < results.len()
        invariant
            i <= results@.len(),
            ov == outcomes_view(results@),
            nv == names.deep_view(),
            addrs.wf(),
            addrs.deep_view() == resolved_addrs(ov.take(i as int)),
            strictly_sorted(failures.deep_view()),
            failures.deep_view() == sorted_unique(failures_in(nv, ov.take(i as int))),
        decreases results@.len() - i,
    {
        assert(ov.take(i + 1).drop_last() =~= ov.take(i as int));
        let name = &results[i].0;
        let outcome = &results[i].1;
        assert(ov[i as int] == (name@, outcome_view(*outcome)));
        let ghost f0 = failures_in(nv, ov.take(i as int));
        let reason: Option<String> = match outcome {
            Ok(list) => if list.len() > 0 {
                None
            } else {
                Some(String::from_str("no address"))
            },
            Err(e) => Some(e.clone()),
        };
        match reason {
            None => {
                match outcome {
                    Ok(list) => {
                        let copy = copy_addrs(list);
                        addrs.insert(name.clone(), copy);
                    },
                    Err(_) => {},
                }
                assert(failures_in(nv, ov.take(i + 1)) == f0);
            },
            Some(reason) => {
                let empty: &[Usage] = &[];
                let uses: &[Usage] = match names.get(name.as_str()) {
                    Some(u) => u.as_slice(),
                    None => empty,
                };
                let ghost uv = uses.deep_view();
                assert(uv =~= value_or(nv, name@, Seq::<UsageView>::empty()));
                let ghost uf = usage_failures(name@, uv, reason@);
                assert(f0 + uf.take(0) =~= f0);
                let mut j: usize = 0;
                while j < uses.len()
                    invariant
                        j <= uv.len(),
                        uv == uses.deep_view(),
                        uf == usage_failures(name@, uv, reason@),
                        strictly_sorted(failures.deep_view()),
                        failures.deep_view() == sorted_unique(f0 + uf.take(j as int)),
                    decreases uv.len() - j,
                {
                    assert((f0 + uf.take(j + 1)).drop_last() =~= f0 + uf.take(j as int));
                    assert(uv[j as int] == uses@[j as int].deep_view());
                    let mut entry = name.clone();
                    entry.append(" (");
                    entry.append(uses[j].context.as_str());
                    entry.append("): ");
                    entry.append(reason.as_str());
                    let x = (uses[j].origin.file.clone(), uses[j].origin.line, entry);
                    assert(x.deep_view() == uf[j as int]);
                    add_failure(&mut failures, x);
                    j = j + 1;
                }
                assert(uf.take(j as int) =~= uf);
                assert(failures_in(nv, ov.take(i + 1)) == f0 + uf);
            },
        }
        i = i + 1;
    }
    assert(ov.take(i as int) =~= ov);
    let ghost all = failures_in(nv, ov);
    proof {
        lemma_report_order(all);
        if all.len() > 0 {
            assert(all.contains(all[0]));
            assert(sorted_unique(all).contains(all[0]));
        }
    }
    if failures.len() == 0 {
        proof {
            if all.len() > 0 {
                let k = choose|k: int| 0 <= k < sorted_unique(all).len() && sorted_unique(all)[k] == all[0];
            }
        }
        return Ok(Resolved { addrs });
    }
    let ghost fv = failures.deep_view();
    let mut report: Vec<String> = Vec::new();
    let mut k: usize = 0;
    while k < failures.len()
        invariant
            k <= fv.len(),
            fv == failures.deep_view(),
            report.deep_view() == fv.take(k as int).map_values(|x: Failure| failure_line(x)),
        decreases fv.len() - k,
    {
        assert(fv[k as int] == failures@[k as int].deep_view());
        let mut line = failures[k].0.clone();
        line.append(":");
        push_chars(&mut line, dec_chars(failures[k].1 as u128).as_slice());
        line.append(": ");
        line.append(failures[k].2.as_str());
        let ghost before = report.deep_view();
        report.push(line);
        assert(report.deep_view() =~= before.push(line@));
        assert(fv.take(k + 1).map_values(|x: Failure| failure_line(x)) =~= fv.take(k as int).map_values(|x: Failure| failure_line(x)).push(failure_line(fv[k as int])));
        k = k + 1;
    }
    assert(fv.take(k as int) =~= fv);
    proof {
        if all.len() == 0 {
            assert(sorted_unique(all) =~= Seq::<Failure>::empty());
        }
    }
    Err(report)
}

/// Outcome `i` resolved name `k` to at least one address.
pub open spec fn resolves_to(o: Seq<(Seq<char>, Result<Seq<AddrView>, Seq<char>>)>, i: int, k: Seq<char>) -> bool {
    &&& o[i].0 == k
    &&& o[i].1 matches Ok(l) && l.len() > 0
}

/// A resolved name keeps exactly the addresses its lookup gave, all of them,
/// in their order (the last such outcome, should a name be looked up twice);
/// a name is there only if some lookup gave it an address.
pub proof fn lemma_resolved_addresses(o: Seq<(Seq<char>, Result<Seq<AddrView>, Seq<char>>)>)
    ensures
        sorted_keys(resolved_addrs(o)),
        forall|i: int, k: Seq<char>|
            0 <= i < o.len() && #[trigger] resolves_to(o, i, k) && (forall|j: int| i < j < o.len() ==> !resolves_to(o, j, k))
                ==> (lookup(resolved_addrs(o), k) matches Some(l) && o[i].1 == Ok::<Seq<AddrView>, Seq<char>>(l)),
        forall|k: Seq<char>|
            #[trigger] lookup(resolved_addrs(o), k) is Some ==> exists|i: int| 0 <= i < o.len() && #[trigger] resolves_to(o, i, k),
    decreases o.len(),
{
    if o.len() == 0 {
        assert(sorted_keys(resolved_addrs(o)));
    } else {
        let d = o.drop_last();
        lemma_resolved_addresses(d);
        let m = resolved_addrs(d);
        let n = o.len() - 1;
        let name = o[n].0;
        assert(o.last() == o[n]);
        assert forall|j: int| 0 <= j < d.len() implies d[j] == o[j] by {}
        if let Ok(l) = o[n].1 {
            if l.len() > 0 {
                lemma_put(m, name, l);
            }
        }
        assert forall|i: int, k: Seq<char>|
            0 <= i < o.len() && #[trigger] resolves_to(o, i, k) && (forall|j: int| i < j < o.len() ==> !resolves_to(o, j, k))
                implies (lookup(resolved_addrs(o), k) matches Some(l) && o[i].1 == Ok::<Seq<AddrView>, Seq<char>>(l)) by {
            if i < n {
                assert(!resolves_to(o, n, k));
                assert(resolves_to(d, i, k));
                assert forall|j: int| i < j < d.len() implies !resolves_to(d, j, k) by {
                    assert(!resolves_to(o, j, k));
                }
            }
        }
        assert forall|k: Seq<char>| #[trigger] lookup(resolved_addrs(o), k) is Some implies exists|i: int|
            0 <= i < o.len() && #[trigger] resolves_to(o, i, k) by {
            if resolves_to(o, n, k) {
            } else {
                assert(lookup(m, k) is Some);
                let i = choose|i: int| 0 <= i < d.len() && #[trigger] resolves_to(d, i, k);
                assert(resolves_to(o, i, k));
            }
        }
    }
}

} // verus!

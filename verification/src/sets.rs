//! Set construction and the `ipset restore` stream.
//!
//! A set's dimension is known here, where it is created, so rules can emit
//! `src` or `src,src` without interrogating ipset for each address.

use vstd::prelude::*;

use crate::decl::{origin_text, Alias, Decl, DeclView, Origin, OriginView};
use crate::map::{
    find, lemma_find, lemma_lower_bound, lemma_put, lemma_put_entries, lemma_upsert, lemma_upsert_then_set, lookup,
    lower_bound, put, sorted_keys, upsert, StrMap,
};
use crate::resolve::{addresses, classify, host_kind, Addr, AddrView, Host, HostView, Resolved};
use crate::text::{chars_of, dec, dec_chars, has_char, push_chars, utf8_len, utf8_len_of};

verus! {

/// An address family.
#[derive(Debug, PartialEq, Eq, PartialOrd, Ord, Clone, Copy, Structural)]
pub enum Family {
    V4,
    V6,
}

impl DeepView for Family {
    type V = Family;

    open spec fn deep_view(&self) -> Family {
        *self
    }
}

/// A literal is v6 if it carries a colon, matching the shell's test.
pub open spec fn literal_family(literal: Seq<char>) -> Family {
    if literal.contains(':') {
        Family::V6
    } else {
        Family::V4
    }
}

impl Family {
    /// The family of a resolved address.
    pub fn of(addr: &Addr) -> (f: Family)
        ensures
            f == addr.family,
    {
        addr.family
    }

    /// A literal is v6 if it carries a colon, matching the shell's test.
    pub fn of_literal(literal: &str) -> (f: Family)
        ensures
            f == literal_family(literal@),
    {
        let c = chars_of(literal);
        if has_char(c.as_slice(), ':') {
            Family::V6
        } else {
            Family::V4
        }
    }
}


/// The family keyword `ipset` takes.
pub open spec fn keyword(f: Family) -> Seq<char> {
    match f {
        Family::V4 => "inet"@,
        Family::V6 => "inet6"@,
    }
}

impl Family {
    fn ipset_keyword(self) -> (k: &'static str)
        ensures
            k@ == keyword(self),
    {
        match self {
            Family::V4 => "inet",
            Family::V6 => "inet6",
        }
    }
}

#[derive(Debug, PartialEq, Eq, Clone, Copy, Structural)]
pub enum SetType {
    /// hash:net — addresses only.
    Net,
    /// hash:net,port — addresses with a port.
    NetPort,
    /// bitmap:port — ports only, for a host of `any`.
    Port,
}

/// How many match directions a rule emits for a set of this type.
pub open spec fn dims(t: SetType) -> nat {
    match t {
        SetType::NetPort => 2,
        _ => 1,
    }
}

/// The `create` arguments of a set.
pub open spec fn create_args_text(t: SetType, f: Family) -> Seq<char> {
    match t {
        SetType::Net => "hash:net family "@ + keyword(f) + " counters"@,
        SetType::NetPort => "hash:net,port family "@ + keyword(f) + " counters"@,
        SetType::Port => "bitmap:port range 1-65535 counters"@,
    }
}

/// A set type as `{:?}` prints it.
pub open spec fn type_text(t: SetType) -> Seq<char> {
    match t {
        SetType::Net => "Net"@,
        SetType::NetPort => "NetPort"@,
        SetType::Port => "Port"@,
    }
}

impl SetType {
    /// How many match directions a rule must emit for this set.
    pub fn dimensions(self) -> (n: usize)
        ensures
            n == dims(self),
    {
        match self {
            SetType::Net | SetType::Port => 1,
            SetType::NetPort => 2,
        }
    }

    fn create_args(self, family: Family) -> (s: String)
        ensures
            s@ == create_args_text(self, family),
    {
        match self {
            SetType::Net => {
                let mut s = String::from_str("hash:net family ");
                s.append(family.ipset_keyword());
                s.append(" counters");
                s
            },
            SetType::NetPort => {
                let mut s = String::from_str("hash:net,port family ");
                s.append(family.ipset_keyword());
                s.append(" counters");
                s
            },
            SetType::Port => String::from_str("bitmap:port range 1-65535 counters"),
        }
    }

    fn debug_name(self) -> (s: &'static str)
        ensures
            s@ == type_text(self),
    {
        match self {
            SetType::Net => "Net",
            SetType::NetPort => "NetPort",
            SetType::Port => "Port",
        }
    }
}

#[derive(Debug)]
pub struct IpSet {
    pub name: String,
    pub family: Family,
    pub set_type: SetType,
    /// Entries as ipset spells them, in declaration order.
    pub entries: Vec<String>,
}

pub struct IpSetView {
    pub name: Seq<char>,
    pub family: Family,
    pub set_type: SetType,
    pub entries: Seq<Seq<char>>,
}

impl DeepView for IpSet {
    type V = IpSetView;

    open spec fn deep_view(&self) -> IpSetView {
        IpSetView {
            name: self.name@,
            family: self.family,
            set_type: self.set_type,
            entries: self.entries.deep_view(),
        }
    }
}

/// Sets keyed by their unprefixed name, so a rule can look up the dimension and
/// whether a family exists for a given alias.
#[derive(Debug)]
pub struct Sets {
    pub by_name: StrMap<IpSet>,
}

impl Default for Sets {
    fn default() -> (s: Sets)
        ensures
            s.by_name.deep_view() == Seq::<(Seq<char>, IpSetView)>::empty(),
            s.by_name.wf(),
    {
        Sets { by_name: StrMap::new() }
    }
}

/// The set name of an alias in a family: `_v6` suffix for the v6 half.
pub open spec fn set_name_text(alias: Seq<char>, family: Family) -> Seq<char> {
    match family {
        Family::V4 => alias,
        Family::V6 => alias + "_v6"@,
    }
}

impl Sets {
    /// The set name as it appears in a rule: `_v6` suffix for the v6 half.
    pub fn set_name(alias: &str, family: Family) -> (s: String)
        ensures
            s@ == set_name_text(alias@, family),
    {
        match family {
            Family::V4 => String::from_str(alias),
            Family::V6 => {
                let mut s = String::from_str(alias);
                s.append("_v6");
                s
            },
        }
    }

    /// A port bitmap carries no family and exists only under the bare name, so
    /// a v6 rule referencing one finds nothing and is not emitted. The rule
    /// would be valid (the bitmap matches either family) but the shell drops
    /// it for want of a `_v6` set, and a reload must not start matching traffic
    /// it did not match before.
    pub fn get(&self, alias: &str, family: Family) -> (r: Option<&IpSet>)
        ensures
            match r {
                Some(s) => lookup(self.by_name.deep_view(), set_name_text(alias@, family)) == Some(s.deep_view()),
                None => lookup(self.by_name.deep_view(), set_name_text(alias@, family)) is None,
            },
    {
        let name = Sets::set_name(alias, family);
        self.by_name.get(name.as_str())
    }
}


/// A port as ipset wants it: `proto:port` when the protocol has three bytes
/// (tcp, udp), else the bare port.
pub open spec fn port_text(port: Seq<char>, proto: Option<Seq<char>>) -> Seq<char> {
    match proto {
        Some(p) => if utf8_len(p) == 3 {
            p + ":"@ + port
        } else {
            port
        },
        None => port,
    }
}

/// A port spec as ipset wants it: `proto:port`, defaulting to tcp like the shell.
fn port_spec(port: &str, proto: Option<&str>) -> (s: String)
    ensures
        s@ == port_text(port@, match proto {
            Some(p) => Some(p@),
            None => None,
        }),
{
    match proto {
        Some(p) => {
            let pc = chars_of(p);
            if utf8_len_of(pc.as_slice()) == 3 {
                let mut s = String::from_str(p);
                s.append(":");
                s.append(port);
                s
            } else {
                String::from_str(port)
            }
        },
        None => String::from_str(port),
    }
}

#[derive(Debug)]
pub struct BuildError {
    pub message: String,
}

/// ipset refuses a name over this length. The budget an alias actually gets is
/// smaller: the versioned prefix grows a character every tenfold increase, and
/// the v6 half of a pair carries a suffix.
pub const IPSET_NAME_MAX: u128 = 31;

/// Bytes of `{prefix}{alias}_v6`, the longer name of an alias's pair.
pub open spec fn longest_name(alias: Seq<char>, prefix: Seq<char>) -> nat {
    utf8_len(prefix) + utf8_len(alias) + 3
}

/// Why an alias name is too long for ipset, if it is.
pub open spec fn length_complaint(alias: Seq<char>, prefix: Seq<char>, origin: OriginView) -> Option<Seq<char>> {
    let longest = longest_name(alias, prefix);
    if longest > 31 {
        Some("alias "@ + alias + " at "@ + origin_text(origin) + ": "@ + dec(longest)
            + " characters with the set prefix and the v6 suffix, over ipset's limit of 31 \u{2014} shorten the alias by "@
            + dec((longest - 31) as nat) + " character(s)"@)
    } else {
        None
    }
}

/// The name ends in `_v6`.
pub open spec fn ends_v6(a: Seq<char>) -> bool {
    a.len() >= 3 && a[a.len() - 3] == '_' && a[a.len() - 2] == 'v' && a[a.len() - 1] == '6'
}

/// Why an alias name collides with the v6 half of its stem, if it does.
pub open spec fn suffix_complaint(alias: Seq<char>, origin: OriginView) -> Option<Seq<char>> {
    if ends_v6(alias) {
        let stem = alias.take(alias.len() - 3);
        Some("alias "@ + alias + " at "@ + origin_text(origin)
            + ": _v6 is the suffix given to the v6 half of alias "@ + stem
            + ", so it cannot be written by hand \u{2014} name this one "@ + stem
            + ", which holds whichever families its addresses belong to"@)
    } else {
        None
    }
}

/// Reject a name ipset will refuse, naming the alias rather than letting the
/// restore stream fail partway with the assembled name.
fn check_name_length(alias: &str, prefix: &str, origin: &Origin) -> (r: Result<(), BuildError>)
    ensures
        match r {
            Ok(()) => length_complaint(alias@, prefix@, origin@) is None,
            Err(e) => length_complaint(alias@, prefix@, origin@) == Some(e.message@),
        },
{
    let pc = chars_of(prefix);
    let ac = chars_of(alias);
    // The v6 suffix is what makes the pair's longer half; check that one.
    let longest = utf8_len_of(pc.as_slice()) + utf8_len_of(ac.as_slice()) + 3;
    if longest > IPSET_NAME_MAX {
        let mut m = String::from_str("alias ");
        m.append(alias);
        m.append(" at ");
        m.append(origin.to_string().as_str());
        m.append(": ");
        push_chars(&mut m, dec_chars(longest).as_slice());
        m.append(" characters with the set prefix and the v6 suffix, over ipset's limit of 31 \u{2014} shorten the alias by ");
        push_chars(&mut m, dec_chars(longest - IPSET_NAME_MAX).as_slice());
        m.append(" character(s)");
        return Err(BuildError { message: m });
    }
    Ok(())
}

/// `_v6` is how the v6 half of every alias is named, in one namespace with the
/// aliases themselves, so an alias spelled that way claims the v6 set of its own
/// stem. Naming a v6-only alias for its family collides the same way as a stem
/// that exists: both end up in one set holding both families' entries, which v4
/// rules then match.
fn check_name_suffix(alias: &str, origin: &Origin) -> (r: Result<(), BuildError>)
    ensures
        match r {
            Ok(()) => suffix_complaint(alias@, origin@) is None,
            Err(e) => suffix_complaint(alias@, origin@) == Some(e.message@),
        },
{
    let ac = chars_of(alias);
    let n = ac.len();
    if n >= 3 && ac[n - 3] == '_' && ac[n - 2] == 'v' && ac[n - 1] == '6' {
        let mut stem: Vec<char> = Vec::new();
        let mut i: usize = 0;
        while i < n - 3
            invariant
                n == ac@.len(),
                n >= 3,
                i <= n - 3,
                stem@ == ac@.take(i as int),
            decreases n - 3 - i,
        {
            stem.push(ac[i]);
            i = i + 1;
            assert(stem@ =~= ac@.take(i as int));
        }
        let mut m = String::from_str("alias ");
        m.append(alias);
        m.append(" at ");
        m.append(origin.to_string().as_str());
        m.append(": _v6 is the suffix given to the v6 half of alias ");
        push_chars(&mut m, stem.as_slice());
        m.append(", so it cannot be written by hand \u{2014} name this one ");
        push_chars(&mut m, stem.as_slice());
        m.append(", which holds whichever families its addresses belong to");
        return Err(BuildError { message: m });
    }
    Ok(())
}

/// Why a set cannot take an entry of another type.
pub open spec fn mixed_text(name: Seq<char>, origin: OriginView, had: SetType, got: SetType) -> Seq<char> {
    "alias "@ + name + " at "@ + origin_text(origin) + ": already built as "@ + type_text(had)
        + ", cannot also hold "@ + type_text(got)
        + " entries \u{2014} an alias is either all ported or all unported"@
}

fn mixed(name: &str, origin: &Origin, had: SetType, got: SetType) -> (e: BuildError)
    ensures
        e.message@ == mixed_text(name@, origin@, had, got),
{
    let mut m = String::from_str("alias ");
    m.append(name);
    m.append(" at ");
    m.append(origin.to_string().as_str());
    m.append(": already built as ");
    m.append(had.debug_name());
    m.append(", cannot also hold ");
    m.append(got.debug_name());
    m.append(" entries \u{2014} an alias is either all ported or all unported");
    BuildError { message: m }
}


pub open spec fn opt_seq(o: Option<Seq<char>>) -> Seq<Seq<char>> {
    match o {
        Some(x) => seq![x],
        None => Seq::empty(),
    }
}

/// Every complaint about alias names, in declaration order: for each alias
/// its length, then its suffix.
pub open spec fn complaints(decls: Seq<DeclView>, prefix: Seq<char>) -> Seq<Seq<char>>
    decreases decls.len(),
{
    if decls.len() == 0 {
        Seq::empty()
    } else {
        let r = complaints(decls.drop_last(), prefix);
        match decls.last() {
            DeclView::Alias(a) => r + opt_seq(length_complaint(a.name, prefix, a.origin))
                + opt_seq(suffix_complaint(a.name, a.origin)),
            _ => r,
        }
    }
}

/// The parts with `sep` between them.
pub open spec fn join(parts: Seq<Seq<char>>, sep: Seq<char>) -> Seq<char>
    decreases parts.len(),
{
    if parts.len() == 0 {
        Seq::empty()
    } else if parts.len() == 1 {
        parts[0]
    } else {
        join(parts.drop_last(), sep) + sep + parts.last()
    }
}

/// The one error that reports every unusable name.
pub open spec fn complaints_text(c: Seq<Seq<char>>) -> Seq<char> {
    dec(c.len()) + " unusable alias name(s):\n  "@ + join(c, "\n  "@)
}

/// Set type for an alias with or without a port.
pub open spec fn kind_for(port: Option<Seq<char>>) -> SetType {
    if port is Some {
        SetType::NetPort
    } else {
        SetType::Net
    }
}

/// An entry: the address, with `,port` where there is one.
pub open spec fn entry_text(addr: Seq<char>, port: Option<Seq<char>>) -> Seq<char> {
    match port {
        Some(p) => addr + ","@ + p,
        None => addr,
    }
}

/// `entry` added to the set of `alias` in `family`, created with type `t` if
/// missing; an existing set of another type refuses it.
pub open spec fn add_entry(
    m: Seq<(Seq<char>, IpSetView)>,
    alias: Seq<char>,
    origin: OriginView,
    family: Family,
    t: SetType,
    entry: Seq<char>,
) -> Result<Seq<(Seq<char>, IpSetView)>, Seq<char>> {
    let key = set_name_text(alias, family);
    match lookup(m, key) {
        Some(s) => if s.set_type != t {
            Err(mixed_text(alias, origin, s.set_type, t))
        } else {
            Ok(put(m, key, IpSetView { entries: s.entries.push(entry), ..s }))
        },
        None => Ok(put(m, key, IpSetView { name: key, family, set_type: t, entries: seq![entry] })),
    }
}

/// The first `n` resolved addresses of an alias added in order.
pub open spec fn add_addresses(
    m: Seq<(Seq<char>, IpSetView)>,
    alias: Seq<char>,
    origin: OriginView,
    addrs: Seq<AddrView>,
    port: Option<Seq<char>>,
    n: int,
) -> Result<Seq<(Seq<char>, IpSetView)>, Seq<char>>
    decreases n,
{
    if n <= 0 {
        Ok(m)
    } else {
        match add_addresses(m, alias, origin, addrs, port, n - 1) {
            Err(e) => Err(e),
            Ok(m1) => add_entry(m1, alias, origin, addrs[n - 1].family, kind_for(port), entry_text(addrs[n - 1].text, port)),
        }
    }
}

/// The sets after one alias declaration.
pub open spec fn alias_sets(
    m: Seq<(Seq<char>, IpSetView)>,
    a: crate::decl::AliasView,
    resolved: Seq<(Seq<char>, Seq<AddrView>)>,
) -> Result<Seq<(Seq<char>, IpSetView)>, Seq<char>> {
    let port = match a.port {
        Some(p) => Some(port_text(p, a.proto)),
        None => None,
    };
    match host_kind(a.host) {
        HostView::Any => match port {
            None => Err("alias "@ + a.name + " at "@ + origin_text(a.origin) + ": host 'any' needs a port"@),
            Some(sp) => add_entry(m, a.name, a.origin, Family::V4, SetType::Port, sp),
        },
        HostView::Literal(l) => add_entry(m, a.name, a.origin, literal_family(l), kind_for(port), entry_text(l, port)),
        HostView::Name(n) => {
            let addrs = addresses(resolved, n);
            add_addresses(m, a.name, a.origin, addrs, port, addrs.len() as int)
        },
    }
}

/// The sets of the first `n` declarations; the first refusal is the error.
pub open spec fn sets_from(
    decls: Seq<DeclView>,
    resolved: Seq<(Seq<char>, Seq<AddrView>)>,
    n: int,
) -> Result<Seq<(Seq<char>, IpSetView)>, Seq<char>>
    decreases n,
{
    if n <= 0 {
        Ok(Seq::empty())
    } else {
        match sets_from(decls, resolved, n - 1) {
            Err(e) => Err(e),
            Ok(m) => match decls[n - 1] {
                DeclView::Alias(a) => alias_sets(m, a, resolved),
                _ => Ok(m),
            },
        }
    }
}

/// What `build` gives: every unusable name at once, else the sets.
pub open spec fn build_sets(
    decls: Seq<DeclView>,
    resolved: Seq<(Seq<char>, Seq<AddrView>)>,
    prefix: Seq<char>,
) -> Result<Seq<(Seq<char>, IpSetView)>, Seq<char>> {
    let c = complaints(decls, prefix);
    if c.len() > 0 {
        Err(complaints_text(c))
    } else {
        sets_from(decls, resolved, decls.len() as int)
    }
}


/// A set with nothing in it yet.
pub open spec fn fresh_set(name: Seq<char>, family: Family, t: SetType) -> IpSetView {
    IpSetView { name, family, set_type: t, entries: Seq::empty() }
}

impl Sets {
    /// A set's type is fixed when ipset creates it, so an alias that mixes
    /// ported and unported hosts cannot be represented. Gives the position of
    /// the alias's set in `family`, created empty if missing, or the type it
    /// already has if that is not `set_type`.
    fn entry_for(&mut self, alias: &str, family: Family, set_type: SetType) -> (r: Result<usize, SetType>)
        requires
            old(self).by_name.wf(),
        ensures
            final(self).by_name.wf(),
            ({
                let s = old(self).by_name.deep_view();
                let key = set_name_text(alias@, family);
                match r {
                    Ok(i) => {
                        &&& final(self).by_name.deep_view() == upsert(s, key, fresh_set(key, family, set_type))
                        &&& i == lower_bound(s, key)
                        &&& (match lookup(s, key) {
                            Some(x) => x.set_type == set_type,
                            None => true,
                        })
                    },
                    Err(had) => {
                        &&& lookup(s, key) matches Some(x) && x.set_type == had && had != set_type
                        &&& final(self).by_name.deep_view() == s
                    },
                }
            }),
    {
        let ghost s = self.by_name.deep_view();
        let name = Sets::set_name(alias, family);
        let ghost key = name@;
        let fresh = IpSet { name: name.clone(), family, set_type, entries: Vec::new() };
        assert(fresh.entries.deep_view() =~= Seq::<Seq<char>>::empty());
        assert(fresh.deep_view() == fresh_set(key, family, set_type));
        proof {
            self.by_name.lemma_wf();
            lemma_upsert(s, key, fresh_set(key, family, set_type));
            lemma_lower_bound(s, key);
        }
        let i = self.by_name.slot(name, fresh);
        let t = self.by_name.value_at(i).set_type;
        if t != set_type {
            return Err(t);
        }
        Ok(i)
    }

    /// `entry` added to the set of `alias` in `family`.
    fn add(&mut self, alias: &str, origin: &Origin, family: Family, t: SetType, entry: String) -> (r: Result<(), BuildError>)
        requires
            old(self).by_name.wf(),
        ensures
            match r {
                Ok(()) => {
                    &&& final(self).by_name.wf()
                    &&& add_entry(old(self).by_name.deep_view(), alias@, origin@, family, t, entry@)
                        == Ok::<Seq<(Seq<char>, IpSetView)>, Seq<char>>(final(self).by_name.deep_view())
                },
                Err(e) => {
                    &&& add_entry(old(self).by_name.deep_view(), alias@, origin@, family, t, entry@)
                        == Err::<Seq<(Seq<char>, IpSetView)>, Seq<char>>(e.message@)
                    &&& final(self).by_name.deep_view() == old(self).by_name.deep_view()
                },
            },
    {
        let ghost s = self.by_name.deep_view();
        let ghost key = set_name_text(alias@, family);
        proof {
            self.by_name.lemma_wf();
        }
        match self.entry_for(alias, family, t) {
            Err(had) => Err(mixed(alias, origin, had, t)),
            Ok(i) => {
                let ghost fv = fresh_set(key, family, t);
                let ghost old_v = crate::map::value_or(s, key, fv);
                let ghost new_v = IpSetView { entries: old_v.entries.push(entry@), ..old_v };
                proof {
                    lemma_upsert(s, key, fv);
                    lemma_upsert_then_set(s, key, fv, new_v);
                    lemma_put(s, key, new_v);
                }
                let ghost e = entry@;
                let set = self.by_name.value_mut(i);
                let ghost before = set.entries.deep_view();
                set.entries.push(entry);
                assert(set.entries.deep_view() =~= before.push(e));
                assert(self.by_name.deep_view() == put(s, key, new_v));
                proof {
                    self.by_name.lemma_wf();
                    if lookup(s, key) is None {
                        assert(Seq::<Seq<char>>::empty().push(e) =~= seq![e]);
                        assert(new_v == (IpSetView { name: key, family, set_type: t, entries: seq![e] }));
                    }
                }
                Ok(())
            },
        }
    }
}


proof fn lemma_sets_from_error(decls: Seq<DeclView>, resolved: Seq<(Seq<char>, Seq<AddrView>)>, i: int, n: int)
    requires
        0 <= i <= n,
        sets_from(decls, resolved, i) is Err,
    ensures
        sets_from(decls, resolved, n) == sets_from(decls, resolved, i),
    decreases n - i,
{
    if i < n {
        lemma_sets_from_error(decls, resolved, i, n - 1);
    }
}

proof fn lemma_add_addresses_error(
    m: Seq<(Seq<char>, IpSetView)>,
    alias: Seq<char>,
    origin: OriginView,
    addrs: Seq<AddrView>,
    port: Option<Seq<char>>,
    i: int,
    n: int,
)
    requires
        0 <= i <= n,
        add_addresses(m, alias, origin, addrs, port, i) is Err,
    ensures
        add_addresses(m, alias, origin, addrs, port, n) == add_addresses(m, alias, origin, addrs, port, i),
    decreases n - i,
{
    if i < n {
        lemma_add_addresses_error(m, alias, origin, addrs, port, i, n - 1);
    }
}

/// The parts with `sep` between them.
fn join_strings(parts: &Vec<String>, sep: &str) -> (s: String)
    ensures
        s@ == join(parts.deep_view(), sep@),
{
    let ghost pv = parts.deep_view();
    let mut s = String::new();
    let mut i: usize = 0;
    while i < parts.len()
        invariant
            i <= parts@.len(),
            pv == parts.deep_view(),
            s@ == join(pv.take(i as int), sep@),
        decreases parts@.len() - i,
    {
        assert(pv.take(i + 1).drop_last() =~= pv.take(i as int));
        assert(pv[i as int] == parts@[i as int]@);
        if i > 0 {
            s.append(sep);
        } else {
            assert(s@ =~= Seq::<char>::empty());
        }
        s.append(parts[i].as_str());
        i = i + 1;
    }
    assert(pv.take(i as int) =~= pv);
    s
}

fn alias_entries(sets: &mut Sets, a: &Alias, resolved: &Resolved) -> (r: Result<(), BuildError>)
    requires
        old(sets).by_name.wf(),
    ensures
        match r {
            Ok(()) => {
                &&& final(sets).by_name.wf()
                &&& alias_sets(old(sets).by_name.deep_view(), a@, resolved.addrs.deep_view())
                    == Ok::<Seq<(Seq<char>, IpSetView)>, Seq<char>>(final(sets).by_name.deep_view())
            },
            Err(e) => alias_sets(old(sets).by_name.deep_view(), a@, resolved.addrs.deep_view())
                == Err::<Seq<(Seq<char>, IpSetView)>, Seq<char>>(e.message@),
        },
{
    let port_field: Option<String> = match &a.port {
        Some(p) => Some(port_spec(p.as_str(), match &a.proto {
            Some(x) => Some(x.as_str()),
            None => None,
        })),
        None => None,
    };
    let ghost pf: Option<Seq<char>> = match a@.port {
        Some(p) => Some(port_text(p, a@.proto)),
        None => None,
    };
    assert(match port_field { Some(x) => pf == Some(x@), None => pf is None });
    let t = if port_field.is_some() { SetType::NetPort } else { SetType::Net };
    assert(t == kind_for(pf));
    match classify(a.host.as_str()) {
        Host::Any => match port_field {
            None => {
                let mut m = String::from_str("alias ");
                m.append(a.name.as_str());
                m.append(" at ");
                m.append(a.origin.to_string().as_str());
                m.append(": host 'any' needs a port");
                Err(BuildError { message: m })
            },
            Some(spec) => sets.add(a.name.as_str(), &a.origin, Family::V4, SetType::Port, spec),
        },
        Host::Literal(literal) => {
            let family = Family::of_literal(literal.as_str());
            let entry = match &port_field {
                Some(spec) => {
                    let mut e = literal.clone();
                    e.append(",");
                    e.append(spec.as_str());
                    e
                },
                None => literal.clone(),
            };
            assert(entry@ == entry_text(literal@, pf));
            sets.add(a.name.as_str(), &a.origin, family, t, entry)
        },
        Host::Name(dns) => {
            let addrs = resolved.get(dns.as_str());
            let ghost av = addrs.deep_view();
            let ghost m0 = sets.by_name.deep_view();
            let mut j: usize = 0;
            while j < addrs.len()
                invariant
                    j <= addrs@.len(),
                    av == addrs.deep_view(),
                    av == addresses(resolved.addrs.deep_view(), dns@),
                    sets.by_name.wf(),
                    add_addresses(m0, a.name@, a.origin@, av, pf, j as int)
                        == Ok::<Seq<(Seq<char>, IpSetView)>, Seq<char>>(sets.by_name.deep_view()),
                    t == kind_for(pf),
                    match port_field { Some(x) => pf == Some(x@), None => pf is None },
                    m0 == old(sets).by_name.deep_view(),
                    host_kind(a.host@) == HostView::Name(dns@),
                    pf == (match a@.port {
                        Some(p) => Some(port_text(p, a@.proto)),
                        None => None,
                    }),
                decreases addrs@.len() - j,
            {
                let addr = &addrs[j];
                assert(av[j as int] == addr.deep_view());
                let entry = match &port_field {
                    Some(spec) => {
                        let mut e = addr.text.clone();
                        e.append(",");
                        e.append(spec.as_str());
                        e
                    },
                    None => addr.text.clone(),
                };
                let family = Family::of(addr);
                assert(entry@ == entry_text(av[j as int].text, pf));
                match sets.add(a.name.as_str(), &a.origin, family, t, entry) {
                    Ok(()) => {},
                    Err(e) => {
                        proof {
                            lemma_add_addresses_error(m0, a.name@, a.origin@, av, pf, j + 1, av.len() as int);
                        }
                        return Err(e);
                    },
                }
                j = j + 1;
            }
            Ok(())
        },
    }
}

/// Build every set from the alias declarations and the resolved names.
///
/// `prefix` is only used to reject a name ipset would refuse; it is applied at
/// render time, not stored.
pub fn build(decls: &[Decl], resolved: &Resolved, prefix: &str) -> (r: Result<Sets, BuildError>)
    ensures
        match r {
            Ok(sets) => {
                &&& sets.by_name.wf()
                &&& build_sets(decls.deep_view(), resolved.addrs.deep_view(), prefix@)
                    == Ok::<Seq<(Seq<char>, IpSetView)>, Seq<char>>(sets.by_name.deep_view())
            },
            Err(e) => build_sets(decls.deep_view(), resolved.addrs.deep_view(), prefix@)
                == Err::<Seq<(Seq<char>, IpSetView)>, Seq<char>>(e.message@),
        },
{
    let ghost dv = decls.deep_view();
    let ghost rv = resolved.addrs.deep_view();
    // Every unusable name at once: each costs a reload to discover otherwise,
    // and on a remote host that is the whole diagnosis.
    let mut rejected: Vec<String> = Vec::new();
    let mut i: usize = 0;
    while i < decls.len()
        invariant
            i <= decls@.len(),
            dv == decls.deep_view(),
            rejected.deep_view() == complaints(dv.take(i as int), prefix@),
        decreases decls@.len() - i,
    {
        assert(dv.take(i + 1).drop_last() =~= dv.take(i as int));
        assert(dv[i as int] == decls@[i as int]@);
        match &decls[i] {
            Decl::Alias(a) => {
                let ghost before = rejected.deep_view();
                let l = check_name_length(a.name.as_str(), prefix, &a.origin);
                match l {
                    Err(e) => {
                        rejected.push(e.message);
                    },
                    Ok(()) => {},
                }
                let ghost mid = rejected.deep_view();
                assert(mid =~= before + opt_seq(length_complaint(a.name@, prefix@, a.origin@)));
                let s = check_name_suffix(a.name.as_str(), &a.origin);
                match s {
                    Err(e) => {
                        rejected.push(e.message);
                    },
                    Ok(()) => {},
                }
                assert(rejected.deep_view() =~= mid + opt_seq(suffix_complaint(a.name@, a.origin@)));
            },
            Decl::Rule(_) => {},
        }
        i = i + 1;
    }
    assert(dv.take(i as int) =~= dv);
    if rejected.len() > 0 {
        let mut m = String::new();
        push_chars(&mut m, dec_chars(rejected.len() as u128).as_slice());
        m.append(" unusable alias name(s):\n  ");
        m.append(join_strings(&rejected, "\n  ").as_str());
        return Err(BuildError { message: m });
    }

    let mut sets = Sets::default();
    let mut i: usize = 0;
    while i < decls.len()
        invariant
            i <= decls@.len(),
            dv == decls.deep_view(),
            rv == resolved.addrs.deep_view(),
            complaints(dv, prefix@).len() == 0,
            sets.by_name.wf(),
            sets_from(dv, rv, i as int) == Ok::<Seq<(Seq<char>, IpSetView)>, Seq<char>>(sets.by_name.deep_view()),
        decreases decls@.len() - i,
    {
        assert(dv[i as int] == decls@[i as int]@);
        match &decls[i] {
            Decl::Alias(a) => {
                match alias_entries(&mut sets, a, resolved) {
                    Ok(()) => {},
                    Err(e) => {
                        proof {
                            lemma_sets_from_error(dv, rv, i + 1, dv.len() as int);
                        }
                        return Err(e);
                    },
                }
            },
            Decl::Rule(_) => {},
        }
        i = i + 1;
    }
    Ok(sets)
}


/// `add NAME ENTRY` lines for each entry, in order.
pub open spec fn add_lines(entries: Seq<Seq<char>>, name: Seq<char>) -> Seq<char>
    decreases entries.len(),
{
    if entries.len() == 0 {
        Seq::empty()
    } else {
        add_lines(entries.drop_last(), name) + "add "@ + name + " "@ + entries.last() + "\n"@
    }
}

/// One set's part of the stream: its `create` line, then its entries.
pub open spec fn set_block(set: IpSetView, prefix: Seq<char>) -> Seq<char> {
    "create "@ + prefix + set.name + " "@ + create_args_text(set.set_type, set.family) + "\n"@
        + add_lines(set.entries, prefix + set.name)
}

/// The `ipset restore` stream: each set in key order.
pub open spec fn restore_text(m: Seq<(Seq<char>, IpSetView)>, prefix: Seq<char>) -> Seq<char>
    decreases m.len(),
{
    if m.len() == 0 {
        Seq::empty()
    } else {
        restore_text(m.drop_last(), prefix) + set_block(m.last().1, prefix)
    }
}

/// Render the `ipset restore` stream. `prefix` is the versioned set prefix.
pub fn render(sets: &Sets, prefix: &str) -> (out: String)
    ensures
        out@ == restore_text(sets.by_name.deep_view(), prefix@),
{
    let ghost m = sets.by_name.deep_view();
    let mut out = String::new();
    let mut i: usize = 0;
    while i < sets.by_name.len()
        invariant
            i <= m.len(),
            m == sets.by_name.deep_view(),
            out@ == restore_text(m.take(i as int), prefix@),
        decreases m.len() - i,
    {
        assert(m.take(i + 1).drop_last() =~= m.take(i as int));
        let set = sets.by_name.value_at(i);
        let ghost sv = set.deep_view();
        let mut name = String::from_str(prefix);
        name.append(set.name.as_str());
        out.append("create ");
        out.append(name.as_str());
        out.append(" ");
        out.append(set.set_type.create_args(set.family).as_str());
        out.append("\n");
        let ghost head = out@;
        let mut j: usize = 0;
        while j < set.entries.len()
            invariant
                j <= sv.entries.len(),
                sv == set.deep_view(),
                name@ == prefix@ + sv.name,
                out@ == head + add_lines(sv.entries.take(j as int), name@),
            decreases sv.entries.len() - j,
        {
            assert(sv.entries.take(j + 1).drop_last() =~= sv.entries.take(j as int));
            assert(sv.entries[j as int] == set.entries@[j as int]@);
            out.append("add ");
            out.append(name.as_str());
            out.append(" ");
            out.append(set.entries[j].as_str());
            out.append("\n");
            j = j + 1;
        }
        assert(sv.entries.take(j as int) =~= sv.entries);
        i = i + 1;
    }
    assert(m.take(i as int) =~= m);
    out
}

/// Every set sits under its own name, holds at least one entry, and is a v6
/// set exactly when its name carries the `_v6` suffix.
pub open spec fn well_keyed(m: Seq<(Seq<char>, IpSetView)>) -> bool {
    forall|i: int|
        0 <= i < m.len() ==> {
            &&& (#[trigger] m[i]).1.name == m[i].0
            &&& m[i].1.entries.len() > 0
            &&& (m[i].1.family == Family::V6 <==> ends_v6(m[i].0))
        }
}

proof fn lemma_add_entry_keyed(
    m: Seq<(Seq<char>, IpSetView)>,
    alias: Seq<char>,
    origin: OriginView,
    family: Family,
    t: SetType,
    entry: Seq<char>,
)
    requires
        sorted_keys(m),
        well_keyed(m),
        !ends_v6(alias),
    ensures
        add_entry(m, alias, origin, family, t, entry) matches Ok(m2) ==> sorted_keys(m2) && well_keyed(m2),
{
    let key = set_name_text(alias, family);
    assert(ends_v6(key) <==> family == Family::V6) by {
        if family == Family::V6 {
            let k = alias + "_v6"@;
            reveal_strlit("_v6");
            assert(k[k.len() - 3] == '_');
            assert(k[k.len() - 2] == 'v');
            assert(k[k.len() - 1] == '6');
        }
    }
    lemma_find(m, key);
    let v = match lookup(m, key) {
        Some(s) => IpSetView { entries: s.entries.push(entry), ..s },
        None => IpSetView { name: key, family, set_type: t, entries: seq![entry] },
    };
    if let Some(s) = lookup(m, key) {
        assert(m[find(m, key)].1 == s);
    }
    if add_entry(m, alias, origin, family, t, entry) is Ok {
        lemma_put(m, key, v);
        lemma_put_entries(m, key, v);
        let m2 = put(m, key, v);
        assert forall|i: int| 0 <= i < m2.len() implies {
            &&& (#[trigger] m2[i]).1.name == m2[i].0
            &&& m2[i].1.entries.len() > 0
            &&& (m2[i].1.family == Family::V6 <==> ends_v6(m2[i].0))
        } by {
            if m2[i] != (key, v) {
                let j = choose|j: int| 0 <= j < m.len() && m[j] == m2[i];
                assert(m[j] == m2[i]);
            }
        }
    }
}

proof fn lemma_add_addresses_keyed(
    m: Seq<(Seq<char>, IpSetView)>,
    alias: Seq<char>,
    origin: OriginView,
    addrs: Seq<AddrView>,
    port: Option<Seq<char>>,
    n: int,
)
    requires
        sorted_keys(m),
        well_keyed(m),
        !ends_v6(alias),
    ensures
        add_addresses(m, alias, origin, addrs, port, n) matches Ok(m2) ==> sorted_keys(m2) && well_keyed(m2),
    decreases n,
{
    if n > 0 {
        lemma_add_addresses_keyed(m, alias, origin, addrs, port, n - 1);
        if let Ok(m1) = add_addresses(m, alias, origin, addrs, port, n - 1) {
            lemma_add_entry_keyed(m1, alias, origin, addrs[n - 1].family, kind_for(port), entry_text(addrs[n - 1].text, port));
        }
    }
}

proof fn lemma_sets_from_keyed(decls: Seq<DeclView>, resolved: Seq<(Seq<char>, Seq<AddrView>)>, n: int)
    requires
        n <= decls.len(),
        forall|i: int| 0 <= i < decls.len() ==> (#[trigger] decls[i] matches DeclView::Alias(a) ==> !ends_v6(a.name)),
    ensures
        sets_from(decls, resolved, n) matches Ok(m) ==> sorted_keys(m) && well_keyed(m),
    decreases n,
{
    if n <= 0 {
        assert(sorted_keys(Seq::<(Seq<char>, IpSetView)>::empty()));
    } else {
        lemma_sets_from_keyed(decls, resolved, n - 1);
        if let Ok(m) = sets_from(decls, resolved, n - 1) {
            if let DeclView::Alias(a) = decls[n - 1] {
                let port = match a.port {
                    Some(p) => Some(port_text(p, a.proto)),
                    None => None,
                };
                match host_kind(a.host) {
                    HostView::Any => {
                        if let Some(sp) = port {
                            lemma_add_entry_keyed(m, a.name, a.origin, Family::V4, SetType::Port, sp);
                        }
                    },
                    HostView::Literal(l) => {
                        lemma_add_entry_keyed(m, a.name, a.origin, literal_family(l), kind_for(port), entry_text(l, port));
                    },
                    HostView::Name(h) => {
                        let addrs = addresses(resolved, h);
                        lemma_add_addresses_keyed(m, a.name, a.origin, addrs, port, addrs.len() as int);
                    },
                }
            }
        }
    }
}

proof fn lemma_no_complaint_no_suffix(decls: Seq<DeclView>, prefix: Seq<char>)
    requires
        complaints(decls, prefix).len() == 0,
    ensures
        forall|i: int| 0 <= i < decls.len() ==> (#[trigger] decls[i] matches DeclView::Alias(a) ==> !ends_v6(a.name)),
    decreases decls.len(),
{
    if decls.len() > 0 {
        let d = decls.drop_last();
        let r = complaints(d, prefix);
        if let DeclView::Alias(a) = decls.last() {
            assert(complaints(decls, prefix).len() == r.len() + opt_seq(length_complaint(a.name, prefix, a.origin)).len()
                + opt_seq(suffix_complaint(a.name, a.origin)).len());
        }
        lemma_no_complaint_no_suffix(d, prefix);
        assert forall|i: int| 0 <= i < decls.len() implies (#[trigger] decls[i] matches DeclView::Alias(a) ==> !ends_v6(
            a.name,
        )) by {
            if i < decls.len() - 1 {
                assert(decls[i] == d[i]);
            }
        }
    }
}

/// In a successful build every set sits under its own name, holds at least
/// one entry, and is a v6 set exactly when its name ends in `_v6`: the suffix
/// check keeps an alias from taking a v6 half's name.
pub proof fn lemma_sets_keyed(decls: Seq<DeclView>, resolved: Seq<(Seq<char>, Seq<AddrView>)>, prefix: Seq<char>)
    ensures
        build_sets(decls, resolved, prefix) matches Ok(m) ==> sorted_keys(m) && well_keyed(m),
{
    if complaints(decls, prefix).len() == 0 {
        lemma_no_complaint_no_suffix(decls, prefix);
        lemma_sets_from_keyed(decls, resolved, decls.len() as int);
    }
}

/// Names are checked before anything else: with an unusable alias name the
/// build fails with every complaint, whatever the hosts and the resolved
/// names; and the prefix is not stored, so two prefixes under which every
/// name is usable build the same sets.
pub proof fn lemma_names_checked_first(
    decls: Seq<DeclView>,
    resolved: Seq<(Seq<char>, Seq<AddrView>)>,
    other: Seq<(Seq<char>, Seq<AddrView>)>,
    p: Seq<char>,
    q: Seq<char>,
)
    ensures
        complaints(decls, p).len() > 0 ==> {
            &&& build_sets(decls, resolved, p) == Err::<Seq<(Seq<char>, IpSetView)>, Seq<char>>(
                complaints_text(complaints(decls, p)),
            )
            &&& build_sets(decls, other, p) == build_sets(decls, resolved, p)
        },
        complaints(decls, p).len() == 0 && complaints(decls, q).len() == 0 ==> build_sets(decls, resolved, p)
            == build_sets(decls, resolved, q),
{
}

/// An alias name is refused for two reasons only: with the prefix and the
/// `_v6` suffix it is over ipset's 31 bytes, or it ends in `_v6` itself. So
/// nothing is refused exactly when every alias name fits and none ends in
/// `_v6`.
pub proof fn lemma_unusable_names(decls: Seq<DeclView>, prefix: Seq<char>)
    ensures
        complaints(decls, prefix).len() == 0 <==> forall|i: int|
            0 <= i < decls.len() ==> (#[trigger] decls[i] matches DeclView::Alias(a) ==> {
                &&& utf8_len(prefix) + utf8_len(a.name) + 3 <= 31
                &&& !(a.name.len() >= 3 && a.name.subrange(a.name.len() - 3, a.name.len() as int) == seq!['_', 'v', '6'])
            }),
    decreases decls.len(),
{
    if decls.len() > 0 {
        let d = decls.drop_last();
        lemma_unusable_names(d, prefix);
        let ok = |x: DeclView| x matches DeclView::Alias(a) ==> {
            &&& utf8_len(prefix) + utf8_len(a.name) + 3 <= 31
            &&& !(a.name.len() >= 3 && a.name.subrange(a.name.len() - 3, a.name.len() as int) == seq!['_', 'v', '6'])
        };
        if let DeclView::Alias(a) = decls.last() {
            let n = a.name;
            if n.len() >= 3 {
                let t = n.subrange(n.len() - 3, n.len() as int);
                if ends_v6(n) {
                    assert(t =~= seq!['_', 'v', '6']);
                } else if t == seq!['_', 'v', '6'] {
                    assert(t[0] == n[n.len() - 3] && t[1] == n[n.len() - 2] && t[2] == n[n.len() - 1]);
                }
            }
        }
        assert(ok(decls.last()) == ok(decls[decls.len() - 1]));
        assert forall|i: int| 0 <= i < d.len() implies d[i] == decls[i] by {}
    }
}

proof fn lemma_add_lines_in_order(entries: Seq<Seq<char>>, name: Seq<char>)
    ensures
        add_lines(entries, name) == Seq::new(entries.len(), |k: int| "add "@ + name + " "@ + entries[k] + "\n"@).flatten(),
    decreases entries.len(),
{
    let all = Seq::new(entries.len(), |k: int| "add "@ + name + " "@ + entries[k] + "\n"@);
    if entries.len() > 0 {
        let d = entries.drop_last();
        lemma_add_lines_in_order(d, name);
        let front = Seq::new(d.len(), |k: int| "add "@ + name + " "@ + d[k] + "\n"@);
        let last = "add "@ + name + " "@ + entries.last() + "\n"@;
        assert(all =~= front.push(last));
        front.lemma_flatten_push(last);
    } else {
        assert(all =~= Seq::<Seq<char>>::empty());
    }
}

/// The `ipset restore` stream creates every set, in key order, each with
/// the family keyword of its own family (`inet6` for a v6 set, `inet` for a
/// v4 one) on a hash set, and follows each `create` with one `add` per entry,
/// in entry order.
pub proof fn lemma_set_stream(m: Seq<(Seq<char>, IpSetView)>, prefix: Seq<char>)
    ensures
        restore_text(m, prefix) == Seq::new(
            m.len(),
            |i: int|
                "create "@ + prefix + m[i].1.name + " "@ + match m[i].1.set_type {
                    SetType::Net => "hash:net family "@ + (if m[i].1.family == Family::V6 {
                        "inet6"@
                    } else {
                        "inet"@
                    }) + " counters"@,
                    SetType::NetPort => "hash:net,port family "@ + (if m[i].1.family == Family::V6 {
                        "inet6"@
                    } else {
                        "inet"@
                    }) + " counters"@,
                    SetType::Port => "bitmap:port range 1-65535 counters"@,
                } + "\n"@ + Seq::new(
                    m[i].1.entries.len(),
                    |k: int| "add "@ + prefix + m[i].1.name + " "@ + m[i].1.entries[k] + "\n"@,
                ).flatten(),
        ).flatten(),
    decreases m.len(),
{
    let all = Seq::new(
        m.len(),
        |i: int|
            "create "@ + prefix + m[i].1.name + " "@ + match m[i].1.set_type {
                SetType::Net => "hash:net family "@ + (if m[i].1.family == Family::V6 {
                    "inet6"@
                } else {
                    "inet"@
                }) + " counters"@,
                SetType::NetPort => "hash:net,port family "@ + (if m[i].1.family == Family::V6 {
                    "inet6"@
                } else {
                    "inet"@
                }) + " counters"@,
                SetType::Port => "bitmap:port range 1-65535 counters"@,
            } + "\n"@ + Seq::new(
                m[i].1.entries.len(),
                |k: int| "add "@ + prefix + m[i].1.name + " "@ + m[i].1.entries[k] + "\n"@,
            ).flatten(),
    );
    if m.len() > 0 {
        let d = m.drop_last();
        lemma_set_stream(d, prefix);
        let front = Seq::new(
            d.len(),
            |i: int|
                "create "@ + prefix + d[i].1.name + " "@ + match d[i].1.set_type {
                    SetType::Net => "hash:net family "@ + (if d[i].1.family == Family::V6 {
                        "inet6"@
                    } else {
                        "inet"@
                    }) + " counters"@,
                    SetType::NetPort => "hash:net,port family "@ + (if d[i].1.family == Family::V6 {
                        "inet6"@
                    } else {
                        "inet"@
                    }) + " counters"@,
                    SetType::Port => "bitmap:port range 1-65535 counters"@,
                } + "\n"@ + Seq::new(
                    d[i].1.entries.len(),
                    |k: int| "add "@ + prefix + d[i].1.name + " "@ + d[i].1.entries[k] + "\n"@,
                ).flatten(),
        );
        let set = m.last().1;
        assert(all =~= front.push(all[m.len() - 1]));
        front.lemma_flatten_push(all[m.len() - 1]);
        lemma_add_lines_in_order(set.entries, prefix + set.name);
        let a1 = Seq::new(set.entries.len(), |k: int| "add "@ + (prefix + set.name) + " "@ + set.entries[k] + "\n"@);
        let a2 = Seq::new(set.entries.len(), |k: int| "add "@ + prefix + set.name + " "@ + set.entries[k] + "\n"@);
        assert("add "@ + (prefix + set.name) =~= "add "@ + prefix + set.name);
        assert(a1 =~= a2);
        assert(set_block(set, prefix) =~= all[m.len() - 1]);
    } else {
        assert(all =~= Seq::<Seq<char>>::empty());
    }
}

/// Adding an entry appends it, last, to the set of the alias in the family,
/// `NAME` for v4 and `NAME_v6` for v6, created with the entry's type and
/// family if missing; every other set is left as it was; it is refused
/// exactly when that set exists with another type.
pub proof fn lemma_set_entries_append(
    m: Seq<(Seq<char>, IpSetView)>,
    alias: Seq<char>,
    origin: OriginView,
    family: Family,
    t: SetType,
    entry: Seq<char>,
)
    requires
        sorted_keys(m),
    ensures
        ({
            let key = if family == Family::V6 { alias + "_v6"@ } else { alias };
            &&& (add_entry(m, alias, origin, family, t, entry) is Err <==> (lookup(m, key) matches Some(s) && s.set_type != t))
            &&& add_entry(m, alias, origin, family, t, entry) matches Ok(m2) ==> {
                &&& lookup(m2, key) matches Some(s2) && {
                    &&& s2.set_type == t
                    &&& s2.name == (match lookup(m, key) {
                        Some(s) => s.name,
                        None => key,
                    })
                    &&& s2.family == (match lookup(m, key) {
                        Some(s) => s.family,
                        None => family,
                    })
                    &&& s2.entries == (match lookup(m, key) {
                        Some(s) => s.entries,
                        None => Seq::empty(),
                    }).push(entry)
                }
                &&& forall|k: Seq<char>| k != key ==> #[trigger] lookup(m2, k) == lookup(m, k)
            }
        }),
{
    let key = set_name_text(alias, family);
    if let Some(s) = lookup(m, key) {
        lemma_put(m, key, IpSetView { entries: s.entries.push(entry), ..s });
    } else {
        lemma_put(m, key, IpSetView { name: key, family, set_type: t, entries: seq![entry] });
        assert(Seq::<Seq<char>>::empty().push(entry) =~= seq![entry]);
    }
}

} // verus!

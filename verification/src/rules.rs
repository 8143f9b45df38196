//! Rule construction and the `iptables-restore` stream.
//!
//! Rules are grouped by chain because a `:CHAIN` line flushes that chain even
//! under `--noflush`: a chain fed by several config files must be emitted once,
//! with all of its rules.

use vstd::prelude::*;

use crate::decl::{origin_text, Decl, DeclView, Origin, OriginView, Rule, RuleView};
use crate::map::{
    find, lemma_find, lemma_put, lemma_put_entries, lemma_upsert, lemma_upsert_then_set, lookup, put, sorted_keys,
    upsert, value_or, StrMap,
};
use crate::resolve::{addresses, classify, host_kind, AddrView, Host, HostView, Resolved};
use crate::sets::{dims, join, literal_family, opt_seq, set_name_text, Family, IpSetView, Sets};
use crate::text::{
    all_digits, chars_of, debug_quote, debug_text, has_char, index_of, is_whitespace, lemma_index_of, push_char,
    string_of, whitespace,
};

verus! {

#[derive(Debug)]
pub struct BuildError {
    pub message: String,
}

/// The stem of a config file named `NN_name.sh`: `NN_name`.
pub open spec fn config_stem(file: Seq<char>) -> Option<Seq<char>> {
    if file.len() >= 3 && file[file.len() - 3] == '.' && file[file.len() - 2] == 's' && file[file.len() - 1] == 'h' {
        let stem = file.take(file.len() - 3);
        let u = index_of(stem, '_');
        if u > 0 && all_digits(stem.take(u)) && u + 1 < stem.len() {
            Some(stem)
        } else {
            None
        }
    } else {
        None
    }
}

/// The chain a rule lands in: a global `+chain` as written, a local one
/// qualified by the stem of its config file; a file not named `NN_name.sh`
/// cannot qualify a local chain.
pub open spec fn chain_text(chain: Seq<char>, origin: OriginView) -> Result<Seq<char>, Seq<char>> {
    if chain.len() > 0 && chain[0] == '+' {
        Ok(chain)
    } else {
        match config_stem(origin.file) {
            Some(stem) => Ok(stem + "+"@ + chain),
            None => Err("rule at "@ + origin_text(origin)
                + ": config file must be named NN_name.sh to qualify chain "@ + debug_text(chain)),
        }
    }
}

/// Chain name as the shell spells it, without the temporary prefix.
///
/// A global chain keeps its `+` and stands alone; a local one is qualified by
/// the config file it came from, so two files can use the same chain name.
fn chain_name(chain: &str, origin: &Origin) -> (r: Result<String, BuildError>)
    ensures
        match r {
            Ok(s) => chain_text(chain@, origin@) == Ok::<Seq<char>, Seq<char>>(s@),
            Err(e) => chain_text(chain@, origin@) == Err::<Seq<char>, Seq<char>>(e.message@),
        },
{
    let c = chars_of(chain);
    if c.len() > 0 && c[0] == '+' {
        return Ok(String::from_str(chain));
    }
    // The shell matches NN_name.sh and drops the extension.
    let f = chars_of(origin.file.as_str());
    let n = f.len();
    let mut stem_ok = false;
    let mut stem: Vec<char> = Vec::new();
    if n >= 3 && f[n - 3] == '.' && f[n - 2] == 's' && f[n - 1] == 'h' {
        let mut i: usize = 0;
        while i < n - 3
            invariant
                n == f@.len(),
                n >= 3,
                i <= n - 3,
                stem@ == f@.take(i as int),
            decreases n - 3 - i,
        {
            stem.push(f[i]);
            i = i + 1;
            assert(stem@ =~= f@.take(i as int));
        }
        // split_once('_'): everything before the first underscore is the
        // number, everything after it the name.
        let ghost sv = stem@;
        proof {
            lemma_index_of(sv, '_');
        }
        let mut u: usize = 0;
        let mut digits = true;
        while u < stem.len() && stem[u] != '_'
            invariant
                u <= stem@.len(),
                sv == stem@,
                forall|j: int| 0 <= j < u ==> stem@[j] != '_',
                digits == all_digits(sv.take(u as int)),
            decreases stem@.len() - u,
        {
            let d = stem[u] >= '0' && stem[u] <= '9';
            proof {
                let a = sv.take(u as int);
                let b = sv.take(u + 1);
                assert(b =~= a.push(sv[u as int]));
                if all_digits(a) && crate::text::is_digit(sv[u as int]) {
                    assert forall|j: int| 0 <= j < b.len() implies crate::text::is_digit(#[trigger] b[j]) by {
                        if j < u {
                            assert(b[j] == a[j]);
                        }
                    }
                }
                if !all_digits(a) {
                    let k = choose|k: int| 0 <= k < a.len() && !crate::text::is_digit(#[trigger] a[k]);
                    assert(b[k] == a[k]);
                }
                if !crate::text::is_digit(sv[u as int]) {
                    assert(b[u as int] == sv[u as int]);
                }
            }
            digits = digits && d;
            u = u + 1;
        }
        proof {
            if u < sv.len() {
                assert(sv[u as int] == '_');
                assert(!sv.take(u as int).contains('_'));
                if index_of(sv, '_') != u {
                    if index_of(sv, '_') < u {
                        assert(sv[index_of(sv, '_')] == '_');
                    } else {
                        assert(sv.take(index_of(sv, '_'))[u as int] == '_');
                    }
                }
            } else {
                assert(!sv.contains('_')) by {
                    if sv.contains('_') {
                        let k = choose|k: int| 0 <= k < sv.len() && sv[k] == '_';
                        assert(stem@[k] != '_');
                    }
                }
            }
        }
        stem_ok = u < stem.len() && u > 0 && digits && u + 1 < stem.len();
    }
    if !stem_ok {
        let mut m = String::from_str("rule at ");
        m.append(origin.to_string().as_str());
        m.append(": config file must be named NN_name.sh to qualify chain ");
        m.append(debug_quote(chain).as_str());
        return Err(BuildError { message: m });
    }
    let mut s = string_of(stem.as_slice());
    s.append("+");
    s.append(chain);
    Ok(s)
}


/// One character escaped for a double-quoted iptables-restore argument.
pub open spec fn escaped_char(c: char) -> Seq<char> {
    if c == '\\' {
        seq!['\\', '\\']
    } else if c == '"' {
        seq!['\\', '"']
    } else {
        seq![c]
    }
}

/// Backslashes doubled, then quotes backslashed.
pub open spec fn escaped(s: Seq<char>) -> Seq<char>
    decreases s.len(),
{
    if s.len() == 0 {
        Seq::empty()
    } else {
        escaped(s.drop_last()) + escaped_char(s.last())
    }
}

/// An argument as written for iptables-restore: as it is when non-empty and
/// free of space, tab and double quote, else double-quoted and escaped.
pub open spec fn quoted(arg: Seq<char>) -> Seq<char> {
    if arg.len() > 0 && !arg.contains(' ') && !arg.contains('"') && !arg.contains('\t') {
        arg
    } else {
        seq!['"'] + escaped(arg) + seq!['"']
    }
}

/// Quote an argument for iptables-restore, which splits on whitespace and
/// honours double quotes.
fn quote(arg: &str) -> (q: String)
    ensures
        q@ == quoted(arg@),
{
    let c = chars_of(arg);
    if c.len() > 0 && !has_char(c.as_slice(), ' ') && !has_char(c.as_slice(), '"') && !has_char(c.as_slice(), '\t') {
        return String::from_str(arg);
    }
    let mut out: Vec<char> = Vec::new();
    out.push('"');
    let mut i: usize = 0;
    while i < c.len()
        invariant
            i <= c@.len(),
            out@ == seq!['"'] + escaped(c@.take(i as int)),
        decreases c@.len() - i,
    {
        assert(c@.take(i + 1).drop_last() =~= c@.take(i as int));
        let ch = c[i];
        let ghost before = out@;
        if ch == '\\' {
            out.push('\\');
            out.push('\\');
        } else if ch == '"' {
            out.push('\\');
            out.push('"');
        } else {
            out.push(ch);
        }
        assert(out@ =~= before + escaped_char(ch));
        i = i + 1;
    }
    assert(c@.take(i as int) =~= c@);
    out.push('"');
    string_of(out.as_slice())
}

/// The argument after a `-j`, if it names a generated chain (`+chain`).
pub open spec fn jumps_to_generated(tail: Seq<Seq<char>>, i: int) -> bool {
    &&& i > 0
    &&& tail[i - 1] == seq!['-', 'j']
    &&& tail[i].len() > 0
    &&& tail[i][0] == '+'
}

/// The tail as offered to the probe: a jump to a generated chain becomes
/// `ACCEPT`; everything else stays.
pub open spec fn probe_view(tail: Seq<Seq<char>>) -> Seq<Seq<char>> {
    Seq::new(tail.len(), |i: int| if jumps_to_generated(tail, i) { "ACCEPT"@ } else { tail[i] })
}

/// The tail as submitted: a jump to a generated chain gets the prefix.
pub open spec fn rewritten(tail: Seq<Seq<char>>, prefix: Seq<char>) -> Seq<Seq<char>> {
    Seq::new(tail.len(), |i: int| if jumps_to_generated(tail, i) { prefix + tail[i] } else { tail[i] })
}

fn is_jump(arg: &String) -> (b: bool)
    ensures
        b == (arg@ == seq!['-', 'j']),
{
    let c = chars_of(arg.as_str());
    let b = c.len() == 2 && c[0] == '-' && c[1] == 'j';
    if b {
        assert(c@ =~= seq!['-', 'j']);
    }
    b
}

fn starts_with_plus(arg: &String) -> (b: bool)
    ensures
        b == (arg@.len() > 0 && arg@[0] == '+'),
{
    let c = chars_of(arg.as_str());
    c.len() > 0 && c[0] == '+'
}

/// The tail as offered to the probe. A jump to a generated chain names one that
/// does not exist yet, which every family would reject, so it becomes a target
/// both families accept: the question being asked is about the match options.
pub fn probe_tail(tail: &[String]) -> (out: Vec<String>)
    ensures
        out.deep_view() == probe_view(tail.deep_view()),
{
    let ghost tv = tail.deep_view();
    let mut out: Vec<String> = Vec::new();
    let mut expect_target = false;
    let mut i: usize = 0;
    while i < tail.len()
        invariant
            i <= tail@.len(),
            tv == tail.deep_view(),
            out.deep_view() == probe_view(tv).take(i as int),
            expect_target == (i > 0 && tv[i - 1] == seq!['-', 'j']),
        decreases tail@.len() - i,
    {
        let arg = &tail[i];
        assert(tv[i as int] == arg@);
        let ghost before = out.deep_view();
        let jump = expect_target && starts_with_plus(arg);
        assert(jump == jumps_to_generated(tv, i as int));
        let item = if jump { String::from_str("ACCEPT") } else { arg.clone() };
        assert(item@ == probe_view(tv)[i as int]);
        out.push(item);
        assert(out.deep_view() =~= before.push(item@));
        assert(probe_view(tv).take(i + 1) =~= probe_view(tv).take(i as int).push(probe_view(tv)[i as int]));
        expect_target = is_jump(arg);
        i = i + 1;
    }
    assert(probe_view(tv).take(i as int) =~= probe_view(tv));
    out
}

/// Rewrite `-j +chain` so the target names the temporary chain.
fn rewrite_targets(tail: &[String], prefix: &str) -> (out: Vec<String>)
    ensures
        out.deep_view() == rewritten(tail.deep_view(), prefix@),
{
    let ghost tv = tail.deep_view();
    let mut out: Vec<String> = Vec::new();
    let mut expect_target = false;
    let mut i: usize = 0;
    while i < tail.len()
        invariant
            i <= tail@.len(),
            tv == tail.deep_view(),
            out.deep_view() == rewritten(tv, prefix@).take(i as int),
            expect_target == (i > 0 && tv[i - 1] == seq!['-', 'j']),
        decreases tail@.len() - i,
    {
        let arg = &tail[i];
        assert(tv[i as int] == arg@);
        let ghost before = out.deep_view();
        let jump = expect_target && starts_with_plus(arg);
        assert(jump == jumps_to_generated(tv, i as int));
        let item = if jump {
            let mut a = String::from_str(prefix);
            a.append(arg.as_str());
            a
        } else {
            arg.clone()
        };
        assert(item@ == rewritten(tv, prefix@)[i as int]);
        out.push(item);
        assert(out.deep_view() =~= before.push(item@));
        assert(rewritten(tv, prefix@).take(i + 1) =~= rewritten(tv, prefix@).take(i as int).push(rewritten(tv, prefix@)[i as int]));
        expect_target = is_jump(arg);
        i = i + 1;
    }
    assert(rewritten(tv, prefix@).take(i as int) =~= rewritten(tv, prefix@));
    out
}

/// One emitted rule: the argument text after `-A CHAIN`.
#[derive(Debug, PartialEq, Eq)]
pub struct Emitted {
    pub chain: String,
    pub args: String,
}

/// The rules of a table: each chain with its rule texts, in declaration order.
pub type ChainsView = Seq<(Seq<char>, Seq<Seq<char>>)>;

/// The tables of a ruleset, each with its chains.
pub type RulesetView = Seq<(Seq<char>, ChainsView)>;

/// Rules for one family, grouped by table then chain, in declaration order.
#[derive(Debug)]
pub struct Table {
    pub chains: StrMap<Vec<String>>,
}

impl DeepView for Table {
    type V = ChainsView;

    open spec fn deep_view(&self) -> ChainsView {
        self.chains.deep_view()
    }
}

impl Default for Table {
    fn default() -> (t: Table)
        ensures
            t.deep_view() == Seq::<(Seq<char>, Seq<Seq<char>>)>::empty(),
            t.chains.wf(),
    {
        Table { chains: StrMap::new() }
    }
}

#[derive(Debug)]
pub struct Ruleset {
    pub tables: StrMap<Table>,
}

impl DeepView for Ruleset {
    type V = RulesetView;

    open spec fn deep_view(&self) -> RulesetView {
        self.tables.deep_view()
    }
}

impl Default for Ruleset {
    fn default() -> (r: Ruleset)
        ensures
            r.deep_view() == Seq::<(Seq<char>, ChainsView)>::empty(),
            r.tables.wf(),
    {
        Ruleset { tables: StrMap::new() }
    }
}

/// Tables and, in each, chains occur once each, in key order.
pub open spec fn ruleset_wf(rs: RulesetView) -> bool {
    &&& sorted_keys(rs)
    &&& forall|i: int| 0 <= i < rs.len() ==> sorted_keys(#[trigger] rs[i].1)
}

/// `rule` appended to `chain` of `table`, each created empty if missing.
pub open spec fn add_rule(rs: RulesetView, table: Seq<char>, chain: Seq<char>, rule: Seq<char>) -> RulesetView {
    let chains = value_or(rs, table, Seq::empty());
    put(rs, table, put(chains, chain, value_or(chains, chain, Seq::empty()).push(rule)))
}

proof fn lemma_value_sorted(rs: RulesetView, table: Seq<char>)
    requires
        ruleset_wf(rs),
    ensures
        sorted_keys(value_or(rs, table, Seq::empty())),
{
    lemma_find(rs, table);
    let e: ChainsView = Seq::empty();
    assert(sorted_keys(e));
    if find(rs, table) >= 0 {
        assert(sorted_keys(rs[find(rs, table)].1));
    }
}

proof fn lemma_add_rule_wf(rs: RulesetView, table: Seq<char>, chain: Seq<char>, rule: Seq<char>)
    requires
        ruleset_wf(rs),
    ensures
        ruleset_wf(add_rule(rs, table, chain, rule)),
{
    let chains = value_or(rs, table, Seq::empty());
    lemma_value_sorted(rs, table);
    let x = put(chains, chain, value_or(chains, chain, Seq::empty()).push(rule));
    lemma_put(chains, chain, value_or(chains, chain, Seq::empty()).push(rule));
    lemma_put(rs, table, x);
    lemma_put_entries(rs, table, x);
    let w = add_rule(rs, table, chain, rule);
    assert forall|i: int| 0 <= i < w.len() implies sorted_keys(#[trigger] w[i].1) by {
        if w[i] != (table, x) {
            assert(rs.contains(w[i]));
            let j = choose|j: int| 0 <= j < rs.len() && rs[j] == w[i];
            assert(sorted_keys(rs[j].1));
        }
    }
}

impl Ruleset {
    /// Appends `rule` to `chain` of `table`, creating either if missing.
    fn add(&mut self, table: &String, chain: &String, rule: String)
        requires
            ruleset_wf(old(self).deep_view()),
        ensures
            ruleset_wf(final(self).deep_view()),
            final(self).deep_view() == add_rule(old(self).deep_view(), table@, chain@, rule@),
    {
        let ghost rs = self.deep_view();
        let ghost t = table@;
        let ghost c = chain@;
        let ghost r = rule@;
        let ghost et: ChainsView = Seq::empty();
        let ghost ec: Seq<Seq<char>> = Seq::empty();
        let ghost chains = value_or(rs, t, et);
        let ghost x = put(chains, c, value_or(chains, c, ec).push(r));
        proof {
            self.tables.lemma_wf();
            lemma_value_sorted(rs, t);
            lemma_upsert(rs, t, et);
            lemma_upsert_then_set(rs, t, et, x);
            lemma_upsert(chains, c, ec);
            lemma_upsert_then_set(chains, c, ec, value_or(chains, c, ec).push(r));
            lemma_add_rule_wf(rs, t, c, r);
        }
        let tk = table.clone();
        let ck = chain.clone();
        let i = self.tables.slot(tk, Table::default());
        assert(self.tables.deep_view() == upsert(rs, t, et));
        assert(self.tables.deep_view()[i as int] == (t, chains));
        let tab = self.tables.value_mut(i);
        assert(tab.deep_view() == chains);
        proof {
            tab.chains.lemma_wf();
        }
        let fresh: Vec<String> = Vec::new();
        assert(fresh.deep_view() =~= ec);
        let j = tab.chains.slot(ck, fresh);
        assert(tab.chains.deep_view() == upsert(chains, c, ec));
        assert(tab.chains.deep_view()[j as int] == (c, value_or(chains, c, ec)));
        let v = tab.chains.value_mut(j);
        let ghost before = v.deep_view();
        assert(before == value_or(chains, c, ec));
        v.push(rule);
        assert(v.deep_view() =~= before.push(r));
        assert(tab.deep_view() == upsert(chains, c, ec).update(j as int, (c, before.push(r))));
        assert(tab.deep_view() == x);
        assert(self.tables.deep_view() == upsert(rs, t, et).update(i as int, (t, x)));
    }
}

/// Each family's ruleset, where it has one.
#[derive(Debug)]
pub struct Rulesets {
    pub v4: Option<Ruleset>,
    pub v6: Option<Ruleset>,
}

pub struct RulesetsView {
    pub v4: Option<RulesetView>,
    pub v6: Option<RulesetView>,
}

pub open spec fn opt_ruleset(o: Option<Ruleset>) -> Option<RulesetView> {
    match o {
        Some(r) => Some(r.deep_view()),
        None => None,
    }
}

impl DeepView for Rulesets {
    type V = RulesetsView;

    open spec fn deep_view(&self) -> RulesetsView {
        RulesetsView { v4: opt_ruleset(self.v4), v6: opt_ruleset(self.v6) }
    }
}

/// The ruleset of `family`, if it has one.
pub open spec fn ruleset_of(out: RulesetsView, family: Family) -> Option<RulesetView> {
    match family {
        Family::V4 => out.v4,
        Family::V6 => out.v6,
    }
}

/// Every ruleset present is well formed.
pub open spec fn rulesets_wf(out: RulesetsView) -> bool {
    &&& (out.v4 matches Some(r) ==> ruleset_wf(r))
    &&& (out.v6 matches Some(r) ==> ruleset_wf(r))
}

/// No family has a ruleset yet.
pub open spec fn no_rulesets() -> RulesetsView {
    RulesetsView { v4: None, v6: None }
}

/// `rule` emitted into `chain` of `table` for `family`.
pub open spec fn emit(out: RulesetsView, family: Family, table: Seq<char>, chain: Seq<char>, rule: Seq<char>) -> RulesetsView {
    let rs = match ruleset_of(out, family) {
        Some(r) => r,
        None => Seq::empty(),
    };
    let n = add_rule(rs, table, chain, rule);
    match family {
        Family::V4 => RulesetsView { v4: Some(n), ..out },
        Family::V6 => RulesetsView { v6: Some(n), ..out },
    }
}

proof fn lemma_emit_wf(out: RulesetsView, family: Family, table: Seq<char>, chain: Seq<char>, rule: Seq<char>)
    requires
        rulesets_wf(out),
    ensures
        rulesets_wf(emit(out, family, table, chain, rule)),
{
    let e: RulesetView = Seq::empty();
    assert(ruleset_wf(e));
    let rs = match ruleset_of(out, family) {
        Some(r) => r,
        None => e,
    };
    lemma_add_rule_wf(rs, table, chain, rule);
}

impl Rulesets {
    /// No family has any rule.
    pub fn new() -> (r: Rulesets)
        ensures
            r.deep_view() == no_rulesets(),
    {
        Rulesets { v4: None, v6: None }
    }

    /// The ruleset of `family`, if any rule was emitted for it.
    pub fn get(&self, family: &Family) -> (r: Option<&Ruleset>)
        ensures
            match r {
                Some(rs) => ruleset_of(self.deep_view(), *family) == Some(rs.deep_view()),
                None => ruleset_of(self.deep_view(), *family) is None,
            },
    {
        match family {
            Family::V4 => match &self.v4 {
                Some(r) => Some(r),
                None => None,
            },
            Family::V6 => match &self.v6 {
                Some(r) => Some(r),
                None => None,
            },
        }
    }

    /// Whether any rule was emitted for `family`.
    pub fn contains_key(&self, family: &Family) -> (b: bool)
        ensures
            b == (ruleset_of(self.deep_view(), *family) is Some),
    {
        match family {
            Family::V4 => self.v4.is_some(),
            Family::V6 => self.v6.is_some(),
        }
    }

    /// The families that have a ruleset, v4 first.
    pub fn families(&self) -> (f: Vec<Family>)
        ensures
            f@ == (if self.v4.is_some() { seq![Family::V4] } else { Seq::empty() })
                + (if self.v6.is_some() { seq![Family::V6] } else { Seq::empty() }),
    {
        let mut f: Vec<Family> = Vec::new();
        if self.v4.is_some() {
            f.push(Family::V4);
        }
        if self.v6.is_some() {
            f.push(Family::V6);
        }
        assert(f@ =~= (if self.v4.is_some() { seq![Family::V4] } else { Seq::empty() })
            + (if self.v6.is_some() { seq![Family::V6] } else { Seq::empty() }));
        f
    }

    /// Appends `rule` to `chain` of `table` in `family`'s ruleset.
    fn emit(&mut self, family: Family, table: &String, chain: &String, rule: String)
        requires
            rulesets_wf(old(self).deep_view()),
        ensures
            rulesets_wf(final(self).deep_view()),
            final(self).deep_view() == emit(old(self).deep_view(), family, table@, chain@, rule@),
    {
        let ghost out = self.deep_view();
        proof {
            lemma_emit_wf(out, family, table@, chain@, rule@);
            let e: RulesetView = Seq::empty();
            assert(ruleset_wf(e));
        }
        match family {
            Family::V4 => {
                let mut rs = match self.v4.take() {
                    Some(r) => r,
                    None => Ruleset::default(),
                };
                rs.add(table, chain, rule);
                self.v4 = Some(rs);
            },
            Family::V6 => {
                let mut rs = match self.v6.take() {
                    Some(r) => r,
                    None => Ruleset::default(),
                };
                rs.add(table, chain, rule);
                self.v6 = Some(rs);
            },
        }
    }
}

/// What the rules are built against: the sets, the resolved names, the
/// temporary chain prefix that `-j +chain` targets get, and the versioned
/// set prefix that `--match-set` names get.
pub struct Inputs {
    pub sets: Seq<(Seq<char>, IpSetView)>,
    pub resolved: Seq<(Seq<char>, Seq<AddrView>)>,
    pub prefix: Seq<char>,
    pub set_prefix: Seq<char>,
}

/// `direction` repeated `n` times, comma separated.
pub open spec fn directions(direction: Seq<char>, n: nat) -> Seq<char> {
    join(Seq::new(n, |i: int| direction), ","@)
}

/// An endpoint as match arguments: `Some(None)` for `any`, `None` where the
/// rule cannot exist in this family (a literal of the other family, an alias
/// with no set on this side).
pub open spec fn endpoint_text(
    address: Seq<char>,
    source: bool,
    family: Family,
    sets: Seq<(Seq<char>, IpSetView)>,
    set_prefix: Seq<char>,
) -> Option<Option<Seq<char>>> {
    let direction = if source { "src"@ } else { "dst"@ };
    match host_kind(address) {
        HostView::Any => Some(None),
        HostView::Literal(l) => if literal_family(l) != family {
            None
        } else {
            Some(Some((if source { "-s "@ } else { "-d "@ }) + l))
        },
        HostView::Name(n) => match lookup(sets, set_name_text(n, family)) {
            None => None,
            Some(set) => Some(
                Some("-m set --match-set "@ + set_prefix + set.name + " "@ + directions(direction, dims(set.set_type))),
            ),
        },
    }
}

pub open spec fn opt_text(o: Option<String>) -> Option<Seq<char>> {
    match o {
        Some(s) => Some(s@),
        None => None,
    }
}

pub open spec fn opt_opt_text(o: Option<Option<String>>) -> Option<Option<Seq<char>>> {
    match o {
        Some(x) => Some(opt_text(x)),
        None => None,
    }
}

/// Render one endpoint as match arguments, or None if this rule cannot exist
/// for this family: an alias with no set on this side.
fn endpoint(address: &str, source: bool, family: Family, sets: &Sets, set_prefix: &str) -> (r: Option<Option<String>>)
    ensures
        opt_opt_text(r) == endpoint_text(address@, source, family, sets.by_name.deep_view(), set_prefix@),
{
    match classify(address) {
        Host::Any => Some(None),
        Host::Literal(literal) => {
            // A literal belongs to one family; on the other it cannot match.
            if Family::of_literal(literal.as_str()) != family {
                return None;
            }
            let mut a = String::from_str(if source { "-s " } else { "-d " });
            a.append(literal.as_str());
            Some(Some(a))
        },
        Host::Name(name) => {
            // A hostname in a rule is resolved and expanded by the caller; by
            // the time it reaches here it is either an alias or a literal.
            let set = match sets.get(name.as_str(), family) {
                Some(set) => set,
                None => return None,
            };
            let direction = if source { "src" } else { "dst" };
            let n = set.set_type.dimensions();
            let mut a = String::from_str("-m set --match-set ");
            a.append(set_prefix);
            a.append(set.name.as_str());
            a.append(" ");
            a.append(direction);
            let ghost d = direction@;
            proof {
                reveal_with_fuel(join, 3);
                assert(Seq::new(1, |i: int| d).drop_last() =~= Seq::<Seq<char>>::empty());
                assert(Seq::new(2, |i: int| d).drop_last() =~= Seq::new(1, |i: int| d));
            }
            if n == 2 {
                a.append(",");
                a.append(direction);
            }
            Some(Some(a))
        },
    }
}

/// The texts of the addresses of `family`, in order.
pub open spec fn texts_in(addrs: Seq<AddrView>, family: Family) -> Seq<Seq<char>>
    decreases addrs.len(),
{
    if addrs.len() == 0 {
        Seq::empty()
    } else {
        let r = texts_in(addrs.drop_last(), family);
        if addrs.last().family == family {
            r.push(addrs.last().text)
        } else {
            r
        }
    }
}

/// The endpoints a written endpoint stands for in `family`: a resolved name
/// its addresses of that family, anything else itself.
pub open spec fn expand_text(address: Seq<char>, family: Family, resolved: Seq<(Seq<char>, Seq<AddrView>)>) -> Seq<Seq<char>> {
    match host_kind(address) {
        HostView::Name(n) => {
            let all = addresses(resolved, n);
            let of = texts_in(all, family);
            if of.len() == 0 && all.len() == 0 {
                seq![address]
            } else {
                of
            }
        },
        _ => seq![address],
    }
}

/// A hostname endpoint becomes one literal per resolved address of this family.
/// Everything else passes through unchanged.
fn expand(address: &String, family: Family, resolved: &Resolved) -> (v: Vec<String>)
    ensures
        v.deep_view() == expand_text(address@, family, resolved.addrs.deep_view()),
{
    match classify(address.as_str()) {
        Host::Name(name) => {
            let all = resolved.get(name.as_str());
            let ghost av = all.deep_view();
            let mut addrs: Vec<String> = Vec::new();
            let mut i: usize = 0;
            while i < all.len()
                invariant
                    i <= all@.len(),
                    av == all.deep_view(),
                    addrs.deep_view() == texts_in(av.take(i as int), family),
                decreases all@.len() - i,
            {
                assert(av.take(i + 1).drop_last() =~= av.take(i as int));
                assert(av[i as int] == all@[i as int].deep_view());
                let ghost before = addrs.deep_view();
                if Family::of(&all[i]) == family {
                    let t = all[i].text.clone();
                    addrs.push(t);
                    assert(addrs.deep_view() =~= before.push(t@));
                }
                i = i + 1;
            }
            assert(av.take(i as int) =~= av);
            // Not a resolved name: it is an alias, and passes through so the
            // set lookup can happen.
            if addrs.len() == 0 && all.len() == 0 {
                let v = vec![address.clone()];
                assert(v.deep_view() =~= seq![address@]);
                v
            } else {
                addrs
            }
        },
        _ => {
            let v = vec![address.clone()];
            assert(v.deep_view() =~= seq![address@]);
            v
        },
    }
}

/// `s` without trailing whitespace.
pub open spec fn trimmed(s: Seq<char>) -> Seq<char>
    decreases s.len(),
{
    if s.len() > 0 && whitespace(s.last()) {
        trimmed(s.drop_last())
    } else {
        s
    }
}

fn trim_end(s: &String) -> (t: String)
    ensures
        t@ == trimmed(s@),
{
    let c = chars_of(s.as_str());
    let mut n: usize = c.len();
    assert(c@.take(n as int) =~= c@);
    loop
        invariant
            n <= c@.len(),
            trimmed(c@.take(n as int)) == trimmed(c@),
        ensures
            n <= c@.len(),
            trimmed(c@.take(n as int)) == trimmed(c@),
            n == 0 || !whitespace(c@[n - 1]),
        decreases n,
    {
        if n == 0 {
            break;
        }
        if !is_whitespace(c[n - 1]) {
            break;
        }
        assert(c@.take(n as int).drop_last() =~= c@.take(n - 1));
        n = n - 1;
    }
    let mut t = String::new();
    let mut i: usize = 0;
    while i < n
        invariant
            n <= c@.len(),
            i <= n,
            t@ == c@.take(i as int),
        decreases n - i,
    {
        push_char(&mut t, c[i]);
        i = i + 1;
        assert(t@ =~= c@.take(i as int));
    }
    assert(c@.take(n as int).len() > 0 ==> c@.take(n as int).last() == c@[n - 1]);
    t
}

/// A matched endpoint followed by a space; nothing for `any`.
pub open spec fn part(o: Option<Seq<char>>) -> Seq<char> {
    match o {
        Some(p) => p + " "@,
        None => Seq::empty(),
    }
}

/// Each tail argument quoted, each followed by a space.
pub open spec fn tail_text(tail: Seq<Seq<char>>) -> Seq<char>
    decreases tail.len(),
{
    if tail.len() == 0 {
        Seq::empty()
    } else {
        tail_text(tail.drop_last()) + quoted(tail.last()) + " "@
    }
}

/// The argument text of a rule after `-A CHAIN`.
pub open spec fn rule_text(src: Option<Seq<char>>, dst: Option<Seq<char>>, tail: Seq<Seq<char>>) -> Seq<char> {
    trimmed(part(src) + part(dst) + tail_text(tail))
}

fn rule_args(src: Option<String>, dst: Option<String>, tail: &Vec<String>) -> (s: String)
    ensures
        s@ == rule_text(opt_text(src), opt_text(dst), tail.deep_view()),
{
    let ghost tv = tail.deep_view();
    let mut args = String::new();
    match src {
        Some(p) => {
            args.append(p.as_str());
            args.append(" ");
        },
        None => {},
    }
    match dst {
        Some(p) => {
            args.append(p.as_str());
            args.append(" ");
        },
        None => {},
    }
    let ghost head = args@;
    assert(head =~= part(opt_text(src)) + part(opt_text(dst)));
    let mut i: usize = 0;
    while i < tail.len()
        invariant
            i <= tail@.len(),
            tv == tail.deep_view(),
            args@ == head + tail_text(tv.take(i as int)),
        decreases tail@.len() - i,
    {
        assert(tv.take(i + 1).drop_last() =~= tv.take(i as int));
        assert(tv[i as int] == tail@[i as int]@);
        let q = quote(tail[i].as_str());
        args.append(q.as_str());
        args.append(" ");
        i = i + 1;
        assert(args@ =~= head + tail_text(tv.take(i as int)));
    }
    assert(tv.take(i as int) =~= tv);
    trim_end(&args)
}

/// The inputs a build runs against, as values.
pub open spec fn inputs_of(sets: &Sets, resolved: &Resolved, prefix: &str, set_prefix: &str) -> Inputs {
    Inputs {
        sets: sets.by_name.deep_view(),
        resolved: resolved.addrs.deep_view(),
        prefix: prefix@,
        set_prefix: set_prefix@,
    }
}

/// The rule for one source and one destination in `family`, if both can
/// exist there.
pub open spec fn pair_rule(s: Seq<char>, d: Seq<char>, family: Family, tail: Seq<Seq<char>>, inp: Inputs) -> Option<Seq<char>> {
    match endpoint_text(s, true, family, inp.sets, inp.set_prefix) {
        None => None,
        Some(sa) => match endpoint_text(d, false, family, inp.sets, inp.set_prefix) {
            None => None,
            Some(da) => Some(rule_text(sa, da, tail)),
        },
    }
}

/// The rules for source `s` with each of the first `n` destinations.
pub open spec fn dst_rules(
    s: Seq<char>,
    dsts: Seq<Seq<char>>,
    n: int,
    family: Family,
    tail: Seq<Seq<char>>,
    inp: Inputs,
) -> Seq<Seq<char>>
    decreases n,
{
    if n <= 0 {
        Seq::empty()
    } else {
        dst_rules(s, dsts, n - 1, family, tail, inp) + opt_seq(pair_rule(s, dsts[n - 1], family, tail, inp))
    }
}

/// The rules for each of the first `n` sources (outer) with each destination
/// (inner).
pub open spec fn src_rules(
    srcs: Seq<Seq<char>>,
    dsts: Seq<Seq<char>>,
    n: int,
    family: Family,
    tail: Seq<Seq<char>>,
    inp: Inputs,
) -> Seq<Seq<char>>
    decreases n,
{
    if n <= 0 {
        Seq::empty()
    } else {
        src_rules(srcs, dsts, n - 1, family, tail, inp) + dst_rules(srcs[n - 1], dsts, dsts.len() as int, family, tail, inp)
    }
}

/// The rule texts a declaration makes in `family`, in order.
pub open spec fn family_rules(r: RuleView, family: Family, inp: Inputs) -> Seq<Seq<char>> {
    let srcs = expand_text(r.src, family, inp.resolved);
    let dsts = expand_text(r.dst, family, inp.resolved);
    src_rules(srcs, dsts, srcs.len() as int, family, rewritten(r.tail, inp.prefix), inp)
}

/// Each text emitted in turn into `chain` of `table` for `family`.
pub open spec fn emit_all(
    out: RulesetsView,
    family: Family,
    table: Seq<char>,
    chain: Seq<char>,
    texts: Seq<Seq<char>>,
) -> RulesetsView
    decreases texts.len(),
{
    if texts.len() == 0 {
        out
    } else {
        emit(emit_all(out, family, table, chain, texts.drop_last()), family, table, chain, texts.last())
    }
}

/// A declaration's rules emitted for the first `n` of the families its tail
/// was accepted by.
pub open spec fn emit_families(
    out: RulesetsView,
    fams: Seq<Family>,
    n: int,
    r: RuleView,
    chain: Seq<char>,
    inp: Inputs,
) -> RulesetsView
    decreases n,
{
    if n <= 0 {
        out
    } else {
        let o = emit_families(out, fams, n - 1, r, chain, inp);
        emit_all(o, fams[n - 1], r.table, chain, family_rules(r, fams[n - 1], inp))
    }
}

/// The rulesets of the first `n` declarations, `fams[i]` being the families
/// that accept the tail of declaration `i`; the first bad chain name is the
/// error.
pub open spec fn rules_from(decls: Seq<DeclView>, fams: Seq<Seq<Family>>, inp: Inputs, n: int) -> Result<RulesetsView, Seq<char>>
    decreases n,
{
    if n <= 0 {
        Ok(no_rulesets())
    } else {
        match rules_from(decls, fams, inp, n - 1) {
            Err(e) => Err(e),
            Ok(out) => match decls[n - 1] {
                DeclView::Rule(r) => match chain_text(r.chain, r.origin) {
                    Err(e) => Err(e),
                    Ok(c) => Ok(emit_families(out, fams[n - 1], fams[n - 1].len() as int, r, c, inp)),
                },
                _ => Ok(out),
            },
        }
    }
}

/// `fams` is one answer `f` gives for `tail`.
pub open spec fn probed<F: Fn(&[String]) -> Vec<Family>>(f: F, tail: Seq<Seq<char>>, fams: Seq<Family>) -> bool {
    exists|a: &[String], out: Vec<Family>| #[trigger] call_ensures(f, (a,), out) && a.deep_view() == tail && out@ == fams
}

/// Declaration `i` is a rule whose tail the build offered to the probe: no
/// earlier error, and its chain name is good.
pub open spec fn reached(decls: Seq<DeclView>, fams: Seq<Seq<Family>>, inp: Inputs, i: int) -> bool {
    match decls[i] {
        DeclView::Rule(r) => rules_from(decls, fams, inp, i) is Ok && chain_text(r.chain, r.origin) is Ok,
        _ => false,
    }
}

/// Every rule reached got, as its families, an answer `f` gives for its
/// probe tail.
pub open spec fn consulted<F: Fn(&[String]) -> Vec<Family>>(f: F, decls: Seq<DeclView>, fams: Seq<Seq<Family>>, inp: Inputs, n: int) -> bool {
    forall|i: int|
        0 <= i < n && #[trigger] reached(decls, fams, inp, i) ==> match decls[i] {
            DeclView::Rule(r) => probed(f, probe_view(r.tail), fams[i]),
            _ => true,
        }
}

/// The outcome of a build whose probe answered `fams`.
pub open spec fn built_with<F: Fn(&[String]) -> Vec<Family>>(
    f: F,
    decls: Seq<DeclView>,
    fams: Seq<Seq<Family>>,
    inp: Inputs,
    result: Result<RulesetsView, Seq<char>>,
) -> bool {
    &&& fams.len() == decls.len()
    &&& consulted(f, decls, fams, inp, decls.len() as int)
    &&& rules_from(decls, fams, inp, decls.len() as int) == result
}

pub open spec fn built_view(r: Result<Rulesets, BuildError>) -> Result<RulesetsView, Seq<char>> {
    match r {
        Ok(out) => Ok(out.deep_view()),
        Err(e) => Err(e.message@),
    }
}

proof fn lemma_rules_from_agree(decls: Seq<DeclView>, a: Seq<Seq<Family>>, b: Seq<Seq<Family>>, inp: Inputs, n: int)
    requires
        forall|i: int| 0 <= i < n ==> a[i] == b[i],
    ensures
        rules_from(decls, a, inp, n) == rules_from(decls, b, inp, n),
    decreases n,
{
    if n > 0 {
        lemma_rules_from_agree(decls, a, b, inp, n - 1);
        assert(a[n - 1] == b[n - 1]);
    }
}

proof fn lemma_rules_from_error(decls: Seq<DeclView>, fams: Seq<Seq<Family>>, inp: Inputs, n: int, m: int)
    requires
        0 < n <= m,
        rules_from(decls, fams, inp, n) is Err,
    ensures
        rules_from(decls, fams, inp, m) == rules_from(decls, fams, inp, n),
    decreases m - n,
{
    if m > n {
        lemma_rules_from_error(decls, fams, inp, n, m - 1);
    }
}

/// Emits each text into `chain` of `table` for `family`, in order.
fn emit_texts(out: &mut Rulesets, family: Family, table: &String, chain: &String, texts: &Vec<String>)
    requires
        rulesets_wf(old(out).deep_view()),
    ensures
        rulesets_wf(final(out).deep_view()),
        final(out).deep_view() == emit_all(old(out).deep_view(), family, table@, chain@, texts.deep_view()),
{
    let ghost o = out.deep_view();
    let ghost tv = texts.deep_view();
    let mut i: usize = 0;
    while i < texts.len()
        invariant
            i <= tv.len(),
            tv == texts.deep_view(),
            rulesets_wf(out.deep_view()),
            out.deep_view() == emit_all(o, family, table@, chain@, tv.take(i as int)),
        decreases tv.len() - i,
    {
        assert(tv.take(i + 1).drop_last() =~= tv.take(i as int));
        assert(tv[i as int] == texts@[i as int]@);
        out.emit(family, table, chain, texts[i].clone());
        i = i + 1;
    }
    assert(tv.take(i as int) =~= tv);
}

/// The rule texts of a declaration in `family`, sources outer, destinations
/// inner; `tail` is its tail with jump targets rewritten.
fn family_texts(
    r: &Rule,
    family: Family,
    tail: &Vec<String>,
    sets: &Sets,
    resolved: &Resolved,
    prefix: &str,
    set_prefix: &str,
) -> (texts: Vec<String>)
    requires
        tail.deep_view() == rewritten(r@.tail, prefix@),
    ensures
        texts.deep_view() == family_rules(r@, family, inputs_of(sets, resolved, prefix, set_prefix)),
{
    let ghost inp = inputs_of(sets, resolved, prefix, set_prefix);
    let ghost tv = tail.deep_view();
    // A hostname endpoint expands to one rule per address of this family;
    // anything else yields a single rule.
    let srcs = expand(&r.src, family, resolved);
    let dsts = expand(&r.dst, family, resolved);
    let ghost sv = srcs.deep_view();
    let ghost dv = dsts.deep_view();
    let mut texts: Vec<String> = Vec::new();
    let mut a: usize = 0;
    while a < srcs.len()
        invariant
            a <= sv.len(),
            sv == srcs.deep_view(),
            dv == dsts.deep_view(),
            tv == tail.deep_view(),
            inp == inputs_of(sets, resolved, prefix, set_prefix),
            texts.deep_view() == src_rules(sv, dv, a as int, family, tv, inp),
        decreases sv.len() - a,
    {
        assert(sv[a as int] == srcs@[a as int]@);
        let ghost head = texts.deep_view();
        let mut b: usize = 0;
        while b < dsts.len()
            invariant
                a < sv.len(),
                b <= dv.len(),
                sv == srcs.deep_view(),
                dv == dsts.deep_view(),
                tv == tail.deep_view(),
                inp == inputs_of(sets, resolved, prefix, set_prefix),
                texts.deep_view() == head + dst_rules(sv[a as int], dv, b as int, family, tv, inp),
            decreases dv.len() - b,
        {
            assert(dv[b as int] == dsts@[b as int]@);
            let ghost before = texts.deep_view();
            let src_args = endpoint(srcs[a].as_str(), true, family, sets, set_prefix);
            match src_args {
                Some(sa) => {
                    let dst_args = endpoint(dsts[b].as_str(), false, family, sets, set_prefix);
                    match dst_args {
                        Some(da) => {
                            let text = rule_args(sa, da, tail);
                            texts.push(text);
                        },
                        None => {},
                    }
                },
                None => {},
            }
            assert(texts.deep_view() =~= before + opt_seq(pair_rule(sv[a as int], dv[b as int], family, tv, inp)));
            b = b + 1;
        }
        a = a + 1;
    }
    texts
}

/// Emits the rules of one declaration into `chain`, for each family that
/// accepted its tail, in the order given: a hostname endpoint expands to one
/// rule per address of the family, sources outer and destinations inner, and
/// a pair is skipped where an endpoint cannot exist in the family. Jump
/// targets get `prefix`, set names `set_prefix`.
pub fn emit_rule(
    out: &mut Rulesets,
    rule: &Rule,
    chain: &String,
    families: &[Family],
    sets: &Sets,
    resolved: &Resolved,
    prefix: &str,
    set_prefix: &str,
)
    requires
        rulesets_wf(old(out).deep_view()),
    ensures
        rulesets_wf(final(out).deep_view()),
        final(out).deep_view() == emit_families(
            old(out).deep_view(),
            families@,
            families@.len() as int,
            rule@,
            chain@,
            inputs_of(sets, resolved, prefix, set_prefix),
        ),
{
    let ghost rv = rule@;
    let ghost inp = inputs_of(sets, resolved, prefix, set_prefix);
    let ghost start = out.deep_view();
    let ts = rule.tail.as_slice();
    assert(ts.deep_view() =~= rule.tail.deep_view());
    let tail = rewrite_targets(ts, prefix);
    let mut k: usize = 0;
    while k < families.len()
        invariant
            k <= families@.len(),
            rv == rule@,
            inp == inputs_of(sets, resolved, prefix, set_prefix),
            tail.deep_view() == rewritten(rv.tail, prefix@),
            rulesets_wf(out.deep_view()),
            out.deep_view() == emit_families(start, families@, k as int, rv, chain@, inp),
        decreases families@.len() - k,
    {
        let family = families[k];
        let texts = family_texts(rule, family, &tail, sets, resolved, prefix, set_prefix);
        emit_texts(out, family, &rule.table, chain, &texts);
        k = k + 1;
    }
}

/// Build both families' rulesets. `prefix` is the temporary chain prefix that
/// `-j +chain` targets get; `set_prefix` is the versioned prefix the sets are
/// loaded under, which every `--match-set` names, so a rule names the set
/// that stays live from the start; `families_for` answers which families
/// accept a rule tail.
pub fn build<F: Fn(&[String]) -> Vec<Family>>(
    decls: &[Decl],
    sets: &Sets,
    resolved: &Resolved,
    prefix: &str,
    set_prefix: &str,
    families_for: &F,
) -> (r: Result<Rulesets, BuildError>)
    requires
        forall|a: &[String]| #[trigger] call_requires(*families_for, (a,)),
    ensures
        exists|fams: Seq<Seq<Family>>|
            #[trigger] built_with(*families_for, decls.deep_view(), fams, inputs_of(sets, resolved, prefix, set_prefix), built_view(r)),
        match r {
            Ok(out) => rulesets_wf(out.deep_view()),
            Err(_) => true,
        },
{
    let ghost dv = decls.deep_view();
    let ghost inp = inputs_of(sets, resolved, prefix, set_prefix);
    let ghost mut fams: Seq<Seq<Family>> = Seq::new(dv.len(), |i: int| Seq::<Family>::empty());
    let mut out = Rulesets::new();
    let mut i: usize = 0;
    while i < decls.len()
        invariant
            i <= dv.len(),
            dv == decls.deep_view(),
            inp == inputs_of(sets, resolved, prefix, set_prefix),
            fams.len() == dv.len(),
            rulesets_wf(out.deep_view()),
            rules_from(dv, fams, inp, i as int) == Ok::<RulesetsView, Seq<char>>(out.deep_view()),
            consulted(*families_for, dv, fams, inp, i as int),
            forall|a: &[String]| #[trigger] call_requires(*families_for, (a,)),
        decreases dv.len() - i,
    {
        assert(dv[i as int] == decls@[i as int]@);
        match &decls[i] {
            Decl::Rule(rule) => {
                let ghost rv = rule@;
                let chain = match chain_name(&rule.chain, &rule.origin) {
                    Ok(c) => c,
                    Err(e) => {
                        proof {
                            lemma_rules_from_error(dv, fams, inp, i + 1, dv.len() as int);
                            assert forall|j: int| 0 <= j < dv.len() && #[trigger] reached(dv, fams, inp, j) implies match dv[j] {
                                DeclView::Rule(r) => probed(*families_for, probe_view(r.tail), fams[j]),
                                _ => true,
                            } by {
                                if j > i {
                                    lemma_rules_from_error(dv, fams, inp, i + 1, j);
                                }
                            }
                            assert(built_with(*families_for, dv, fams, inp, built_view(Err::<Rulesets, BuildError>(e))));
                        }
                        return Err(e);
                    },
                };
                let ts = rule.tail.as_slice();
                assert(ts.deep_view() =~= rule.tail.deep_view());
                let pt = probe_tail(ts);
                let ps = pt.as_slice();
                let families = families_for(ps);
                proof {
                    assert(ps.deep_view() =~= pt.deep_view());
                    assert(probed(*families_for, probe_view(rv.tail), families@));
                    let old_fams = fams;
                    fams = fams.update(i as int, families@);
                    lemma_rules_from_agree(dv, old_fams, fams, inp, i as int);
                    assert forall|j: int| 0 <= j <= i && #[trigger] reached(dv, fams, inp, j) implies match dv[j] {
                        DeclView::Rule(r) => probed(*families_for, probe_view(r.tail), fams[j]),
                        _ => true,
                    } by {
                        if j < i {
                            lemma_rules_from_agree(dv, old_fams, fams, inp, j);
                            assert(reached(dv, old_fams, inp, j));
                        }
                    }
                }
                emit_rule(&mut out, rule, &chain, families.as_slice(), sets, resolved, prefix, set_prefix);
            },
            Decl::Alias(_) => {},
        }
        i = i + 1;
    }
    proof {
        assert(built_with(*families_for, dv, fams, inp, built_view(Ok::<Rulesets, BuildError>(out))));
    }
    Ok(out)
}

/// `:CHAIN - [0:0]` for each chain, in key order.
pub open spec fn chain_heads(chains: ChainsView, prefix: Seq<char>) -> Seq<char>
    decreases chains.len(),
{
    if chains.len() == 0 {
        Seq::empty()
    } else {
        chain_heads(chains.drop_last(), prefix) + ":"@ + prefix + chains.last().0 + " - [0:0]\n"@
    }
}

/// `-A CHAIN RULE` for each rule of one chain, in order.
pub open spec fn append_lines(chain: Seq<char>, rules: Seq<Seq<char>>, prefix: Seq<char>) -> Seq<char>
    decreases rules.len(),
{
    if rules.len() == 0 {
        Seq::empty()
    } else {
        append_lines(chain, rules.drop_last(), prefix) + "-A "@ + prefix + chain + " "@ + rules.last() + "\n"@
    }
}

/// The rules of each chain, chains in key order.
pub open spec fn chain_bodies(chains: ChainsView, prefix: Seq<char>) -> Seq<char>
    decreases chains.len(),
{
    if chains.len() == 0 {
        Seq::empty()
    } else {
        chain_bodies(chains.drop_last(), prefix) + append_lines(chains.last().0, chains.last().1, prefix)
    }
}

/// One table's part of the stream: its header, every chain declared, every
/// rule appended, and its own `COMMIT`.
pub open spec fn table_block(table: Seq<char>, chains: ChainsView, prefix: Seq<char>) -> Seq<char> {
    "*"@ + table + "\n"@ + chain_heads(chains, prefix) + chain_bodies(chains, prefix) + "COMMIT\n"@
}

/// The `iptables-restore` stream of a ruleset: each table in key order.
pub open spec fn ruleset_text(rs: RulesetView, prefix: Seq<char>) -> Seq<char>
    decreases rs.len(),
{
    if rs.len() == 0 {
        Seq::empty()
    } else {
        ruleset_text(rs.drop_last(), prefix) + table_block(rs.last().0, rs.last().1, prefix)
    }
}

/// Render one family's `iptables-restore` stream.
pub fn render(ruleset: &Ruleset, prefix: &str) -> (out: String)
    ensures
        out@ == ruleset_text(ruleset.deep_view(), prefix@),
{
    let ghost rs = ruleset.deep_view();
    let mut out = String::new();
    let mut i: usize = 0;
    while i < ruleset.tables.len()
        invariant
            i <= rs.len(),
            rs == ruleset.deep_view(),
            out@ == ruleset_text(rs.take(i as int), prefix@),
        decreases rs.len() - i,
    {
        assert(rs.take(i + 1).drop_last() =~= rs.take(i as int));
        let table = ruleset.tables.key_at(i);
        let t = ruleset.tables.value_at(i);
        let ghost cv = t.deep_view();
        let ghost head = out@;
        out.append("*");
        out.append(table.as_str());
        out.append("\n");
        let ghost mid = out@;
        let mut j: usize = 0;
        while j < t.chains.len()
            invariant
                j <= cv.len(),
                cv == t.deep_view(),
                out@ == mid + chain_heads(cv.take(j as int), prefix@),
            decreases cv.len() - j,
        {
            assert(cv.take(j + 1).drop_last() =~= cv.take(j as int));
            let chain = t.chains.key_at(j);
            out.append(":");
            out.append(prefix);
            out.append(chain.as_str());
            out.append(" - [0:0]\n");
            j = j + 1;
        }
        assert(cv.take(j as int) =~= cv);
        let ghost mid2 = out@;
        let mut j: usize = 0;
        while j < t.chains.len()
            invariant
                j <= cv.len(),
                cv == t.deep_view(),
                out@ == mid2 + chain_bodies(cv.take(j as int), prefix@),
            decreases cv.len() - j,
        {
            assert(cv.take(j + 1).drop_last() =~= cv.take(j as int));
            let chain = t.chains.key_at(j);
            let rules = t.chains.value_at(j);
            let ghost rl = rules.deep_view();
            let ghost before = out@;
            let mut k: usize = 0;
            while k < rules.len()
                invariant
                    k <= rl.len(),
                    rl == rules.deep_view(),
                    out@ == before + append_lines(chain@, rl.take(k as int), prefix@),
                decreases rl.len() - k,
            {
                assert(rl.take(k + 1).drop_last() =~= rl.take(k as int));
                assert(rl[k as int] == rules@[k as int]@);
                out.append("-A ");
                out.append(prefix);
                out.append(chain.as_str());
                out.append(" ");
                out.append(rules[k].as_str());
                out.append("\n");
                k = k + 1;
            }
            assert(rl.take(k as int) =~= rl);
            j = j + 1;
        }
        assert(cv.take(j as int) =~= cv);
        out.append("COMMIT\n");
        assert(out@ =~= head + table_block(table@, cv, prefix@));
        i = i + 1;
    }
    assert(rs.take(i as int) =~= rs);
    out
}

/// Tails are passed through opaque: rewriting reorders nothing, keeps every
/// argument, and changes only a `-j +chain` target, which gains the prefix.
/// The tail offered to the probe differs from the written one in the same
/// places only, where the target becomes `ACCEPT`.
pub proof fn lemma_rewrite_only_targets(tail: Seq<Seq<char>>, prefix: Seq<char>)
    ensures
        rewritten(tail, prefix).len() == tail.len(),
        probe_view(tail).len() == tail.len(),
        forall|i: int|
            0 <= i < tail.len() ==> #[trigger] rewritten(tail, prefix)[i] == if jumps_to_generated(tail, i) {
                prefix + tail[i]
            } else {
                tail[i]
            },
        forall|i: int|
            0 <= i < tail.len() ==> #[trigger] probe_view(tail)[i] == if jumps_to_generated(tail, i) {
                "ACCEPT"@
            } else {
                tail[i]
            },
{
}

/// A global chain is one chain whichever file feeds it; a local chain is
/// qualified by its file, so two files using the same local name get two
/// chains.
pub proof fn lemma_chain_names(chain: Seq<char>, a: OriginView, b: OriginView)
    ensures
        chain.len() > 0 && chain[0] == '+' ==> chain_text(chain, a) == Ok::<Seq<char>, Seq<char>>(chain)
            && chain_text(chain, b) == Ok::<Seq<char>, Seq<char>>(chain),
        ({
            let x = chain_text(chain, a);
            let y = chain_text(chain, b);
            !(chain.len() > 0 && chain[0] == '+') && x is Ok && y is Ok && a.file != b.file ==> x != y
        }),
{
    let x = chain_text(chain, a);
    let y = chain_text(chain, b);
    if !(chain.len() > 0 && chain[0] == '+') && x is Ok && y is Ok && a.file != b.file && x == y {
        let sa = config_stem(a.file)->0;
        let sb = config_stem(b.file)->0;
        assert(sa == a.file.take(a.file.len() - 3));
        assert(sb == b.file.take(b.file.len() - 3));
        let xa = sa + "+"@ + chain;
        let yb = sb + "+"@ + chain;
        assert(xa.len() == yb.len());
        assert(sa.len() == sb.len());
        assert forall|k: int| 0 <= k < sa.len() implies sa[k] == sb[k] by {
            assert(xa[k] == sa[k]);
            assert(yb[k] == sb[k]);
        }
        assert(sa =~= sb);
        assert(a.file =~= sa + seq!['.', 's', 'h']);
        assert(b.file =~= sb + seq!['.', 's', 'h']);
    }
}

/// A literal endpoint makes rules only in its own family.
pub proof fn lemma_literal_confined(s: Seq<char>, d: Seq<char>, family: Family, tail: Seq<Seq<char>>, inp: Inputs)
    ensures
        host_kind(s) is Literal && literal_family(s) != family ==> pair_rule(s, d, family, tail, inp) is None,
        host_kind(d) is Literal && literal_family(d) != family ==> pair_rule(s, d, family, tail, inp) is None,
{
}

/// The rules of `chain` in `table` for `family`, none where there are none.
pub open spec fn chain_of(out: RulesetsView, family: Family, table: Seq<char>, chain: Seq<char>) -> Seq<Seq<char>> {
    let rs = match ruleset_of(out, family) {
        Some(r) => r,
        None => Seq::empty(),
    };
    value_or(value_or(rs, table, Seq::empty()), chain, Seq::empty())
}

/// Emitting a rule appends it to its own chain and leaves every other chain,
/// of every table and family, as it was.
pub proof fn lemma_emit_appends(out: RulesetsView, family: Family, table: Seq<char>, chain: Seq<char>, rule: Seq<char>)
    requires
        rulesets_wf(out),
    ensures
        chain_of(emit(out, family, table, chain, rule), family, table, chain) == chain_of(out, family, table, chain).push(rule),
        forall|f: Family, t: Seq<char>, c: Seq<char>|
            !(f == family && t == table && c == chain) ==> #[trigger] chain_of(emit(out, family, table, chain, rule), f, t, c)
                == chain_of(out, f, t, c),
{
    let e: RulesetView = Seq::empty();
    let ec: ChainsView = Seq::empty();
    let er: Seq<Seq<char>> = Seq::empty();
    assert(ruleset_wf(e));
    let rs = match ruleset_of(out, family) {
        Some(r) => r,
        None => e,
    };
    let chains = value_or(rs, table, ec);
    lemma_value_sorted(rs, table);
    let x = put(chains, chain, value_or(chains, chain, er).push(rule));
    lemma_put(chains, chain, value_or(chains, chain, er).push(rule));
    lemma_put(rs, table, x);
    let o = emit(out, family, table, chain, rule);
    assert(ruleset_of(o, family) == Some(put(rs, table, x)));
    assert forall|f: Family, t: Seq<char>, c: Seq<char>|
        !(f == family && t == table && c == chain) implies #[trigger] chain_of(o, f, t, c) == chain_of(out, f, t, c) by {
        if f == family {
            if t == table {
                assert(value_or(put(rs, table, x), t, ec) == x);
            } else {
                assert(lookup(put(rs, table, x), t) == lookup(rs, t));
            }
        } else {
            assert(ruleset_of(o, f) == ruleset_of(out, f));
        }
    }
}

/// Emitting texts in turn appends them, in that order, to their chain.
pub proof fn lemma_emit_all_appends(
    out: RulesetsView,
    family: Family,
    table: Seq<char>,
    chain: Seq<char>,
    texts: Seq<Seq<char>>,
)
    requires
        rulesets_wf(out),
    ensures
        rulesets_wf(emit_all(out, family, table, chain, texts)),
        chain_of(emit_all(out, family, table, chain, texts), family, table, chain) == chain_of(out, family, table, chain)
            + texts,
    decreases texts.len(),
{
    if texts.len() > 0 {
        let d = texts.drop_last();
        lemma_emit_all_appends(out, family, table, chain, d);
        let o = emit_all(out, family, table, chain, d);
        lemma_emit_appends(o, family, table, chain, texts.last());
        lemma_emit_wf(o, family, table, chain, texts.last());
        assert(chain_of(out, family, table, chain) + texts =~= (chain_of(out, family, table, chain) + d).push(texts.last()));
    } else {
        assert(chain_of(out, family, table, chain) + texts =~= chain_of(out, family, table, chain));
    }
}

proof fn lemma_emit_all_other_family(
    out: RulesetsView,
    family: Family,
    table: Seq<char>,
    chain: Seq<char>,
    texts: Seq<Seq<char>>,
    other: Family,
)
    requires
        other != family,
    ensures
        ruleset_of(emit_all(out, family, table, chain, texts), other) == ruleset_of(out, other),
    decreases texts.len(),
{
    if texts.len() > 0 {
        lemma_emit_all_other_family(out, family, table, chain, texts.drop_last(), other);
    }
}

proof fn lemma_emit_families_other(
    out: RulesetsView,
    fams: Seq<Family>,
    n: int,
    r: RuleView,
    chain: Seq<char>,
    inp: Inputs,
    other: Family,
)
    requires
        n <= fams.len(),
        !fams.contains(other),
    ensures
        ruleset_of(emit_families(out, fams, n, r, chain, inp), other) == ruleset_of(out, other),
    decreases n,
{
    if n > 0 {
        lemma_emit_families_other(out, fams, n - 1, r, chain, inp, other);
        let o = emit_families(out, fams, n - 1, r, chain, inp);
        assert(fams[n - 1] != other);
        lemma_emit_all_other_family(o, fams[n - 1], r.table, chain, family_rules(r, fams[n - 1], inp), other);
    }
}

/// A family that no probe answer names gets no ruleset: a tail only one
/// family accepts is emitted for that family alone.
pub proof fn lemma_unaccepted_family_absent(decls: Seq<DeclView>, fams: Seq<Seq<Family>>, inp: Inputs, family: Family, n: int)
    requires
        0 <= n <= fams.len(),
        forall|i: int| 0 <= i < fams.len() ==> !(#[trigger] fams[i]).contains(family),
    ensures
        rules_from(decls, fams, inp, n) matches Ok(out) ==> ruleset_of(out, family) is None,
    decreases n,
{
    if n > 0 {
        lemma_unaccepted_family_absent(decls, fams, inp, family, n - 1);
        if let Ok(out) = rules_from(decls, fams, inp, n - 1) {
            if let DeclView::Rule(r) = decls[n - 1] {
                if let Ok(c) = chain_text(r.chain, r.origin) {
                    assert(!fams[n - 1].contains(family));
                    lemma_emit_families_other(out, fams[n - 1], fams[n - 1].len() as int, r, c, inp, family);
                }
            }
        }
    }
}

/// The characters between double quotes read back: a backslash takes the
/// next character literally.
pub open spec fn unescaped(s: Seq<char>) -> Seq<char>
    decreases s.len(),
{
    if s.len() == 0 {
        Seq::empty()
    } else if s[0] == '\\' && s.len() >= 2 {
        seq![s[1]] + unescaped(s.skip(2))
    } else {
        seq![s[0]] + unescaped(s.skip(1))
    }
}

/// An argument as iptables-restore reads it back: a double-quoted one without
/// its quotes and escapes, any other as written.
pub open spec fn read_back(q: Seq<char>) -> Seq<char> {
    if q.len() >= 2 && q[0] == '"' && q[q.len() - 1] == '"' {
        unescaped(q.subrange(1, q.len() - 1))
    } else {
        q
    }
}

proof fn lemma_escaped_concat(a: Seq<char>, b: Seq<char>)
    ensures
        escaped(a + b) == escaped(a) + escaped(b),
    decreases b.len(),
{
    if b.len() > 0 {
        lemma_escaped_concat(a, b.drop_last());
        assert((a + b).drop_last() =~= a + b.drop_last());
        assert(escaped(a) + escaped(b) =~= escaped(a) + escaped(b.drop_last()) + escaped_char(b.last()));
    } else {
        assert(a + b =~= a);
        assert(escaped(a) + escaped(b) =~= escaped(a));
    }
}

proof fn lemma_unescaped_escaped(s: Seq<char>)
    ensures
        unescaped(escaped(s)) == s,
    decreases s.len(),
{
    if s.len() > 0 {
        let c = s[0];
        let rest = s.skip(1);
        assert(s =~= seq![c] + rest);
        lemma_escaped_concat(seq![c], rest);
        assert(seq![c].drop_last() =~= Seq::<char>::empty());
        assert(escaped(Seq::<char>::empty()) =~= Seq::<char>::empty());
        assert(seq![c].last() == c);
        assert(escaped(seq![c]) =~= escaped_char(c));
        lemma_unescaped_escaped(rest);
        let e = escaped_char(c) + escaped(rest);
        if c == '\\' || c == '"' {
            assert(e.skip(2) =~= escaped(rest));
            assert(seq![e[1]] + unescaped(e.skip(2)) =~= s);
        } else {
            assert(e.skip(1) =~= escaped(rest));
            assert(seq![e[0]] + unescaped(e.skip(1)) =~= s);
        }
    } else {
        assert(escaped(s) =~= Seq::<char>::empty());
    }
}

/// Quoting loses nothing: iptables-restore reads every quoted argument back
/// as it was written.
pub proof fn lemma_quote_reads_back(arg: Seq<char>)
    ensures
        read_back(quoted(arg)) == arg,
{
    if arg.len() > 0 && !arg.contains(' ') && !arg.contains('"') && !arg.contains('\t') {
        if arg.len() >= 2 && arg[0] == '"' {
            assert(arg.contains('"'));
        }
    } else {
        let q = seq!['"'] + escaped(arg) + seq!['"'];
        assert(q.subrange(1, q.len() - 1) =~= escaped(arg));
        lemma_unescaped_escaped(arg);
    }
}

/// Rule generation is deterministic: two builds of the same declarations
/// against the same sets, names and prefix, whose probes answered alike, give
/// the same result, so generated output can be diffed against a previous run.
pub proof fn lemma_build_deterministic<F: Fn(&[String]) -> Vec<Family>, G: Fn(&[String]) -> Vec<Family>>(
    f: F,
    g: G,
    decls: Seq<DeclView>,
    fams: Seq<Seq<Family>>,
    inp: Inputs,
    a: Result<RulesetsView, Seq<char>>,
    b: Result<RulesetsView, Seq<char>>,
)
    requires
        built_with(f, decls, fams, inp, a),
        built_with(g, decls, fams, inp, b),
    ensures
        a == b,
{
}

/// A rule on an alias names the alias's set under the set prefix, the set
/// the stream loads, never one under the chain prefix; an alias with no set
/// in the family makes no rule there.
pub proof fn lemma_match_set_names_loaded_set(
    address: Seq<char>,
    source: bool,
    family: Family,
    sets: Seq<(Seq<char>, IpSetView)>,
    set_prefix: Seq<char>,
)
    ensures
        host_kind(address) matches HostView::Name(n) ==> match lookup(sets, set_name_text(n, family)) {
            Some(set) => endpoint_text(address, source, family, sets, set_prefix) == Some(
                Some(
                    "-m set --match-set "@ + set_prefix + set.name + " "@ + directions(
                        if source { "src"@ } else { "dst"@ },
                        dims(set.set_type),
                    ),
                ),
            ),
            None => endpoint_text(address, source, family, sets, set_prefix) is None,
        },
{
}

proof fn lemma_heads_in_order(chains: ChainsView, prefix: Seq<char>)
    ensures
        chain_heads(chains, prefix) == Seq::new(chains.len(), |j: int| ":"@ + prefix + chains[j].0 + " - [0:0]\n"@).flatten(),
    decreases chains.len(),
{
    let all = Seq::new(chains.len(), |j: int| ":"@ + prefix + chains[j].0 + " - [0:0]\n"@);
    if chains.len() > 0 {
        let d = chains.drop_last();
        lemma_heads_in_order(d, prefix);
        let front = Seq::new(d.len(), |j: int| ":"@ + prefix + d[j].0 + " - [0:0]\n"@);
        assert(all =~= front.push(all[chains.len() - 1]));
        front.lemma_flatten_push(all[chains.len() - 1]);
    } else {
        assert(all =~= Seq::<Seq<char>>::empty());
    }
}

proof fn lemma_lines_in_order(chain: Seq<char>, rules: Seq<Seq<char>>, prefix: Seq<char>)
    ensures
        append_lines(chain, rules, prefix) == Seq::new(rules.len(), |k: int| "-A "@ + prefix + chain + " "@ + rules[k] + "\n"@).flatten(),
    decreases rules.len(),
{
    let all = Seq::new(rules.len(), |k: int| "-A "@ + prefix + chain + " "@ + rules[k] + "\n"@);
    if rules.len() > 0 {
        let d = rules.drop_last();
        lemma_lines_in_order(chain, d, prefix);
        let front = Seq::new(d.len(), |k: int| "-A "@ + prefix + chain + " "@ + d[k] + "\n"@);
        assert(all =~= front.push(all[rules.len() - 1]));
        front.lemma_flatten_push(all[rules.len() - 1]);
    } else {
        assert(all =~= Seq::<Seq<char>>::empty());
    }
}

proof fn lemma_bodies_in_order(chains: ChainsView, prefix: Seq<char>)
    ensures
        chain_bodies(chains, prefix) == Seq::new(
            chains.len(),
            |j: int| Seq::new(chains[j].1.len(), |k: int| "-A "@ + prefix + chains[j].0 + " "@ + chains[j].1[k] + "\n"@).flatten(),
        ).flatten(),
    decreases chains.len(),
{
    let all = Seq::new(
        chains.len(),
        |j: int| Seq::new(chains[j].1.len(), |k: int| "-A "@ + prefix + chains[j].0 + " "@ + chains[j].1[k] + "\n"@).flatten(),
    );
    if chains.len() > 0 {
        let d = chains.drop_last();
        lemma_bodies_in_order(d, prefix);
        let front = Seq::new(
            d.len(),
            |j: int| Seq::new(d[j].1.len(), |k: int| "-A "@ + prefix + d[j].0 + " "@ + d[j].1[k] + "\n"@).flatten(),
        );
        assert(all =~= front.push(all[chains.len() - 1]));
        front.lemma_flatten_push(all[chains.len() - 1]);
        lemma_lines_in_order(chains.last().0, chains.last().1, prefix);
    } else {
        assert(all =~= Seq::<Seq<char>>::empty());
    }
}

/// The `iptables-restore` stream of a ruleset: for each table in key order,
/// its `*table` line, a `:CHAIN` line for each of its chains in key order,
/// then for each chain its rules as `-A` lines in their stored order (rule `k`
/// before rule `k + 1`, so the first terminal match stays first), and the
/// table's own `COMMIT`.
pub proof fn lemma_rules_stream(rs: RulesetView, prefix: Seq<char>)
    ensures
        ruleset_text(rs, prefix) == Seq::new(
            rs.len(),
            |i: int|
                "*"@ + rs[i].0 + "\n"@ + Seq::new(
                    rs[i].1.len(),
                    |j: int| ":"@ + prefix + rs[i].1[j].0 + " - [0:0]\n"@,
                ).flatten() + Seq::new(
                    rs[i].1.len(),
                    |j: int|
                        Seq::new(
                            rs[i].1[j].1.len(),
                            |k: int| "-A "@ + prefix + rs[i].1[j].0 + " "@ + rs[i].1[j].1[k] + "\n"@,
                        ).flatten(),
                ).flatten() + "COMMIT\n"@,
        ).flatten(),
    decreases rs.len(),
{
    let all = Seq::new(
        rs.len(),
        |i: int|
            "*"@ + rs[i].0 + "\n"@ + Seq::new(rs[i].1.len(), |j: int| ":"@ + prefix + rs[i].1[j].0 + " - [0:0]\n"@).flatten()
                + Seq::new(
                rs[i].1.len(),
                |j: int|
                    Seq::new(
                        rs[i].1[j].1.len(),
                        |k: int| "-A "@ + prefix + rs[i].1[j].0 + " "@ + rs[i].1[j].1[k] + "\n"@,
                    ).flatten(),
            ).flatten() + "COMMIT\n"@,
    );
    if rs.len() > 0 {
        let d = rs.drop_last();
        lemma_rules_stream(d, prefix);
        let front = Seq::new(
            d.len(),
            |i: int|
                "*"@ + d[i].0 + "\n"@ + Seq::new(d[i].1.len(), |j: int| ":"@ + prefix + d[i].1[j].0 + " - [0:0]\n"@).flatten()
                    + Seq::new(
                    d[i].1.len(),
                    |j: int|
                        Seq::new(
                            d[i].1[j].1.len(),
                            |k: int| "-A "@ + prefix + d[i].1[j].0 + " "@ + d[i].1[j].1[k] + "\n"@,
                        ).flatten(),
                ).flatten() + "COMMIT\n"@,
        );
        assert(all =~= front.push(all[rs.len() - 1]));
        front.lemma_flatten_push(all[rs.len() - 1]);
        lemma_heads_in_order(rs.last().1, prefix);
        lemma_bodies_in_order(rs.last().1, prefix);
    } else {
        assert(all =~= Seq::<Seq<char>>::empty());
    }
}

} // verus!
